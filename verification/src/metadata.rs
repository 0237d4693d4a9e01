//! What the footer of a Parquet file says of its column chunks.

use parquet::basic::{BrotliLevel, Compression, GzipLevel, ZstdLevel};
use parquet::file::metadata::ParquetMetaData;
use vstd::prelude::*;

verus! {

/// A Gzip level, as `parquet` checks it.
#[verifier::external_type_specification]
#[verifier::external_body]
pub struct ExGzipLevel(GzipLevel);

/// A Brotli level, as `parquet` checks it.
#[verifier::external_type_specification]
#[verifier::external_body]
pub struct ExBrotliLevel(BrotliLevel);

/// A Zstd level, as `parquet` checks it.
#[verifier::external_type_specification]
#[verifier::external_body]
pub struct ExZstdLevel(ZstdLevel);

/// The codecs that `parquet` knows, with their variants in sight.
#[verifier::external_type_specification]
pub struct ExCompression(Compression);

/// The metadata that the footer of a Parquet file holds.
#[verifier::external_type_specification]
#[verifier::external_body]
pub struct ExParquetMetaData(ParquetMetaData);

/// What the footer says of one column chunk.
#[derive(Clone, Copy, Debug, PartialEq, Eq)]
pub struct ColumnChunk {
    /// Where the dictionary page starts, if there is one.
    pub dictionary_page_offset: Option<i64>,
    /// Where the first data page starts.
    pub data_page_offset: i64,
    /// The bytes of all pages with their headers.
    pub compressed_size: i64,
    /// The codec of the page bodies.
    pub compression: Compression,
}

/// The bytes that a column chunk occupies in its file.
#[derive(Clone, Copy, Debug, PartialEq, Eq, Structural)]
pub struct ByteRange {
    /// Where the chunk starts.
    pub offset: u64,
    /// How many bytes it takes.
    pub len: u64,
}

impl ColumnChunk {
    /// Where the chunk starts: at its dictionary page, or else at its first data page.
    pub open spec fn start(&self) -> i64 {
        match self.dictionary_page_offset {
            Some(offset) => offset,
            None => self.data_page_offset,
        }
    }

    /// Whether the chunk has a place in a file: neither its start nor its size is negative.
    pub open spec fn is_placed(&self) -> bool {
        self.start() >= 0 && self.compressed_size >= 0
    }

    /// The bytes that the chunk occupies.
    pub open spec fn range(&self) -> ByteRange {
        ByteRange { offset: self.start() as u64, len: self.compressed_size as u64 }
    }

    /// Decides whether the chunk has a place in a file.
    pub fn has_place(&self) -> (placed: bool)
        ensures
            placed == self.is_placed(),
    {
        let start: i64 = match self.dictionary_page_offset {
            Some(offset) => offset,
            None => self.data_page_offset,
        };
        start >= 0 && self.compressed_size >= 0
    }
}

/// A column chunk starts at its dictionary page where it has one, and else at its first data
/// page, and takes as many bytes as its pages do. It has no place where either is negative.
pub proof fn law_chunk_starts_at_its_first_page(chunk: ColumnChunk)
    ensures
        chunk.is_placed() <==> chunk.compressed_size >= 0 && match chunk.dictionary_page_offset {
            Some(offset) => offset >= 0,
            None => chunk.data_page_offset >= 0,
        },
        chunk.is_placed() ==> chunk.range().len == chunk.compressed_size && match
        chunk.dictionary_page_offset {
            Some(offset) => chunk.range().offset == offset,
            None => chunk.range().offset == chunk.data_page_offset,
        },
{
}

/// The ranges of column chunks are those of each, one for one.
pub proof fn law_ranges_are_those_of_the_chunks(columns: Seq<ColumnChunk>)
    ensures
        ranges(columns).len() == columns.len(),
        forall|i: int|
            0 <= i < columns.len() ==> #[trigger] ranges(columns)[i] == columns[i].range(),
{
}

/// The column chunks of a file, row group by row group.
pub uninterp spec fn column_chunks(metadata: ParquetMetaData) -> Seq<Seq<ColumnChunk>>;

/// The byte ranges of the column chunks of one row group.
pub open spec fn ranges(columns: Seq<ColumnChunk>) -> Seq<ByteRange> {
    columns.map_values(|column: ColumnChunk| column.range())
}

/// Calls `ParquetMetaData::num_row_groups`: the number of row groups that the metadata holds.
#[verifier::external_body]
pub(crate) fn row_group_count(metadata: &ParquetMetaData) -> (count: usize)
    ensures
        count == column_chunks(*metadata).len(),
{
    metadata.num_row_groups()
}

/// Calls `RowGroupMetaData::num_columns`: the number of column chunks of one row group.
#[verifier::external_body]
pub(crate) fn column_count(metadata: &ParquetMetaData, row_group: usize) -> (count: usize)
    requires
        row_group < column_chunks(*metadata).len(),
    ensures
        count == column_chunks(*metadata)[row_group as int].len(),
{
    metadata.row_group(row_group).num_columns()
}

/// Calls `RowGroupMetaData::column` and reads the chunk's `dictionary_page_offset`,
/// `data_page_offset`, `compressed_size` and `compression`: what the metadata holds of one
/// column chunk.
#[verifier::external_body]
pub(crate) fn column_chunk(metadata: &ParquetMetaData, row_group: usize, column: usize) -> (chunk:
    ColumnChunk)
    requires
        row_group < column_chunks(*metadata).len(),
        column < column_chunks(*metadata)[row_group as int].len(),
    ensures
        chunk == column_chunks(*metadata)[row_group as int][column as int],
{
    let chunk = metadata.row_group(row_group).column(column);
    ColumnChunk {
        dictionary_page_offset: chunk.dictionary_page_offset(),
        data_page_offset: chunk.data_page_offset(),
        compressed_size: chunk.compressed_size(),
        compression: chunk.compression(),
    }
}

/// Calls `ColumnChunkMetaData::byte_range`: the bytes that one column chunk occupies. It
/// panics on a chunk without a place, which the contract leaves out.
#[verifier::external_body]
pub(crate) fn column_byte_range(
    metadata: &ParquetMetaData,
    row_group: usize,
    column: usize,
) -> (range: ByteRange)
    requires
        row_group < column_chunks(*metadata).len(),
        column < column_chunks(*metadata)[row_group as int].len(),
        column_chunks(*metadata)[row_group as int][column as int].is_placed(),
    ensures
        range == column_chunks(*metadata)[row_group as int][column as int].range(),
{
    let (offset, len) = metadata.row_group(row_group).column(column).byte_range();
    ByteRange { offset, len }
}

} // verus!
