//! Locating the compressed page bodies inside a Parquet file.
//!
//! The footer gives the byte range of every column chunk; where the pages of a chunk begin
//! and end is only found by walking their headers.

use crate::collect::{
    collect, law_collecting_stops_at_the_first_error, lemma_collect_error, lemma_collect_next,
    lemma_collect_ok,
};
use crate::compact::HeaderError;
use crate::metadata::{
    column_byte_range, column_chunk, column_chunks, column_count, ranges, row_group_count,
    ByteRange, ColumnChunk,
};
use crate::page_header::{
    law_header_depends_on_its_own_bytes, lemma_page_header_in_bytes, page_header, read_page_header,
    PageHeaderInfo, PageType,
};
use crate::written::{
    lemma_stand_at_pieces, lemma_written_page_header, pages_bytes, pages_wf, stand_at, WrittenPage,
};
use parquet::file::metadata::ParquetMetaData;
use vstd::prelude::*;
use vstd::slice::slice_subrange;

verus! {

/// A compressed page body located within a Parquet file.
#[derive(Clone, Copy, Debug, PartialEq, Eq, Structural)]
pub struct CompressedPage {
    /// Offset of the compressed body, just past the page header.
    pub offset: usize,
    /// Length of the compressed body in bytes.
    pub compressed_len: usize,
    /// Length of the body once decompressed.
    pub uncompressed_len: usize,
}

/// The pages of one column chunk, alongside the byte range that the chunk occupies.
#[derive(Clone, Debug, PartialEq, Eq)]
pub struct ColumnChunkPages {
    /// Offset of the column chunk within the file.
    pub offset: u64,
    /// Length of the column chunk in bytes.
    pub len: usize,
    /// Compressed pages of this chunk, in file order, with offsets from the file's start.
    pub pages: Vec<CompressedPage>,
}

/// The pages of one column chunk, as a value.
#[verifier::ext_equal]
pub struct ChunkPages {
    /// Offset of the column chunk within the file.
    pub offset: u64,
    /// Length of the column chunk in bytes.
    pub len: usize,
    /// Compressed pages of this chunk, in file order.
    pub pages: Seq<CompressedPage>,
}

impl View for ColumnChunkPages {
    type V = ChunkPages;

    open spec fn view(&self) -> ChunkPages {
        ChunkPages { offset: self.offset, len: self.len, pages: self.pages@ }
    }
}

/// The chunks of one row group, as values.
pub open spec fn chunks_view(chunks: Seq<ColumnChunkPages>) -> Seq<ChunkPages> {
    Seq::new(chunks.len(), |i: int| chunks[i]@)
}

/// The chunks of all row groups, as values.
pub open spec fn row_groups_view(row_groups: Seq<Vec<ColumnChunkPages>>) -> Seq<Seq<ChunkPages>> {
    Seq::new(row_groups.len(), |i: int| chunks_view(row_groups[i]@))
}

/// Why the pages of a file could not be located.
#[derive(Clone, Copy, Debug, PartialEq, Eq, Structural)]
pub enum ScanError {
    /// A chunk's offset or length does not fit the address space.
    RangeOutOfAddressSpace {
        /// Where the footer says the chunk starts.
        offset: u64,
        /// How long the footer says it is.
        len: u64,
    },
    /// A chunk goes on past the end of the file.
    ChunkPastEnd {
        /// Where the footer says the chunk starts.
        offset: u64,
        /// How long the footer says it is.
        len: u64,
    },
    /// A page header cannot be read.
    Header(HeaderError),
    /// A page body goes on past the end of its chunk.
    BodyOverrun {
        /// Where the body starts.
        body: usize,
        /// How long its header says it is.
        compressed_len: usize,
    },
    /// A version 2 data page, which is not compressed as a single block.
    DataPageV2,
}

/// The bytes that one page takes in a file.
pub struct PageSpan {
    /// Where the page header starts.
    pub header: nat,
    /// Where the page body starts.
    pub body: nat,
    /// Where the page ends.
    pub end: nat,
    /// The kind of page.
    pub page_type: PageType,
    /// Length of the body once decompressed.
    pub uncompressed_len: usize,
}

/// The page whose header `info` stands at `pos`.
pub open spec fn span_of(pos: nat, info: PageHeaderInfo) -> PageSpan {
    PageSpan {
        header: pos,
        body: pos + info.header_len as nat,
        end: pos + info.header_len as nat + info.compressed_len as nat,
        page_type: info.page_type,
        uncompressed_len: info.uncompressed_len,
    }
}

/// The pages that follow one another in `file` from `pos` up to `end`.
pub open spec fn page_spans(file: Seq<u8>, pos: nat, end: nat) -> Result<Seq<PageSpan>, ScanError>
    decreases end - pos,
{
    if pos >= end {
        Ok(Seq::empty())
    } else {
        match page_header(file.subrange(pos as int, end as int)) {
            Err(error) => Err(ScanError::Header(error)),
            Ok(info) => {
                let span = span_of(pos, info);
                if span.end > end {
                    Err(
                        ScanError::BodyOverrun {
                            body: span.body as usize,
                            compressed_len: info.compressed_len,
                        },
                    )
                } else if info.page_type == PageType::DataV2 {
                    Err(ScanError::DataPageV2)
                } else if span.end <= pos {
                    // No header is empty, so no page is.
                    Ok(Seq::empty())
                } else {
                    spans_after(seq![span], page_spans(file, span.end, end))
                }
            },
        }
    }
}

/// `seen` in front of `rest`, unless locating the rest failed.
pub open spec fn spans_after(
    seen: Seq<PageSpan>,
    rest: Result<Seq<PageSpan>, ScanError>,
) -> Result<Seq<PageSpan>, ScanError> {
    match rest {
        Ok(spans) => Ok(seen + spans),
        Err(error) => Err(error),
    }
}

/// Whether a page holds column data. An index page does not.
pub open spec fn holds_data(span: PageSpan) -> bool {
    span.page_type == PageType::Data || span.page_type == PageType::Dictionary
}

/// The compressed body of a page.
pub open spec fn body_of(span: PageSpan) -> CompressedPage {
    CompressedPage {
        offset: span.body as usize,
        compressed_len: (span.end - span.body) as usize,
        uncompressed_len: span.uncompressed_len,
    }
}

/// The compressed bodies among the pages, in order.
pub open spec fn bodies(spans: Seq<PageSpan>) -> Seq<CompressedPage>
    decreases spans.len(),
{
    if spans.len() == 0 {
        Seq::empty()
    } else if holds_data(spans.last()) {
        bodies(spans.drop_last()).push(body_of(spans.last()))
    } else {
        bodies(spans.drop_last())
    }
}

/// The pages of the column chunk that occupies `range`.
pub open spec fn chunk_pages(file: Seq<u8>, range: ByteRange) -> Result<ChunkPages, ScanError> {
    if range.offset > usize::MAX || range.len > usize::MAX {
        Err(ScanError::RangeOutOfAddressSpace { offset: range.offset, len: range.len })
    } else if range.offset + range.len > file.len() {
        Err(ScanError::ChunkPastEnd { offset: range.offset, len: range.len })
    } else {
        match page_spans(file, range.offset as nat, (range.offset + range.len) as nat) {
            Err(error) => Err(error),
            Ok(spans) => Ok(
                ChunkPages { offset: range.offset, len: range.len as usize, pages: bodies(spans) },
            ),
        }
    }
}

/// The pages of the column chunks of one row group.
pub open spec fn row_group_pages(file: Seq<u8>, columns: Seq<ByteRange>) -> Result<
    Seq<ChunkPages>,
    ScanError,
> {
    collect(columns, |range: ByteRange| chunk_pages(file, range))
}

/// The pages of all column chunks of a file, row group by row group.
pub open spec fn file_pages(file: Seq<u8>, row_groups: Seq<Seq<ByteRange>>) -> Result<
    Seq<Seq<ChunkPages>>,
    ScanError,
> {
    collect(row_groups, |columns: Seq<ByteRange>| row_group_pages(file, columns))
}

/// The byte ranges of all column chunks of a file, row group by row group.
pub open spec fn file_ranges(row_groups: Seq<Seq<ColumnChunk>>) -> Seq<Seq<ByteRange>> {
    row_groups.map_values(|columns: Seq<ColumnChunk>| ranges(columns))
}

/// Whether a scan yields `pages`: the same chunks, or the same error.
pub open spec fn scan_yields(
    scanned: Result<Vec<Vec<ColumnChunkPages>>, ScanError>,
    pages: Result<Seq<Seq<ChunkPages>>, ScanError>,
) -> bool {
    match (scanned, pages) {
        (Ok(row_groups), Ok(expected)) => row_groups_view(row_groups@) == expected,
        (Err(error), Err(expected)) => error == expected,
        _ => false,
    }
}

/// Walks the page headers of one column chunk.
pub fn scan_chunk(file_bytes: &[u8], range: ByteRange) -> (scanned: Result<
    ColumnChunkPages,
    ScanError,
>)
    ensures
        match (scanned, chunk_pages(file_bytes@, range)) {
            (Ok(chunk), Ok(expected)) => chunk@ == expected,
            (Err(error), Err(expected)) => error == expected,
            _ => false,
        },
        scanned matches Ok(chunk) ==> {
            &&& chunk.offset == range.offset
            &&& chunk.len == range.len
            &&& chunk.pages@ == chunk_pages(file_bytes@, range)->Ok_0.pages
        },
{
    let ghost file = file_bytes@;
    if range.offset > usize::MAX as u64 || range.len > usize::MAX as u64 {
        return Err(
            ScanError::RangeOutOfAddressSpace { offset: range.offset, len: range.len },
        );
    }
    let start: usize = range.offset as usize;
    let len: usize = range.len as usize;
    if start > file_bytes.len() || len > file_bytes.len() - start {
        return Err(ScanError::ChunkPastEnd { offset: range.offset, len: range.len });
    }
    let end: usize = start + len;
    let mut pages: Vec<CompressedPage> = Vec::new();
    let mut pos: usize = start;
    let ghost mut seen: Seq<PageSpan> = Seq::empty();
    proof {
        let all = page_spans(file, start as nat, end as nat);
        if let Ok(spans) = all {
            assert(seen + spans =~= spans);
        }
    }
    while pos < end
        invariant
            file == file_bytes@,
            start <= pos <= end <= file.len(),
            page_spans(file, start as nat, end as nat) == spans_after(
                seen,
                page_spans(file, pos as nat, end as nat),
            ),
            pages@ == bodies(seen),
            range.offset == start,
            range.len == len,
            end == start + len,
        decreases end - pos,
    {
        let rest = slice_subrange(file_bytes, pos, end);
        let info: PageHeaderInfo = match read_page_header(rest) {
            Ok(info) => info,
            Err(error) => return Err(ScanError::Header(error)),
        };
        let body: usize = pos + info.header_len;
        if info.compressed_len > end - body {
            return Err(ScanError::BodyOverrun { body, compressed_len: info.compressed_len });
        }
        let body_end: usize = body + info.compressed_len;
        let ghost span = span_of(pos as nat, info);
        proof {
            assert(seen.push(span).drop_last() =~= seen);
            if let Ok(spans) = page_spans(file, body_end as nat, end as nat) {
                assert(seen + (seq![span] + spans) =~= seen.push(span) + spans);
            }
        }
        match info.page_type {
            PageType::Data | PageType::Dictionary => pages.push(
                CompressedPage {
                    offset: body,
                    compressed_len: info.compressed_len,
                    uncompressed_len: info.uncompressed_len,
                },
            ),
            PageType::DataV2 => return Err(ScanError::DataPageV2),
            PageType::Index => {},
        }
        proof {
            seen = seen.push(span);
        }
        pos = body_end;
    }
    assert(seen + Seq::<PageSpan>::empty() =~= seen);
    Ok(ColumnChunkPages { offset: range.offset, len, pages })
}

/// Whether every column chunk of a row group that a scan comes to has a place in the file. A
/// scan ends at the first chunk that it fails on.
pub open spec fn columns_scannable(file: Seq<u8>, columns: Seq<ColumnChunk>) -> bool {
    forall|j: int|
        0 <= j < columns.len() && row_group_pages(file, ranges(columns).take(j)) is Ok ==> (
        #[trigger] columns[j]).is_placed()
}

/// Whether every column chunk that a scan comes to has a place in the file.
pub open spec fn scannable(file: Seq<u8>, row_groups: Seq<Seq<ColumnChunk>>) -> bool {
    forall|i: int|
        0 <= i < row_groups.len() && file_pages(file, file_ranges(row_groups).take(i)) is Ok
            ==> columns_scannable(file, #[trigger] row_groups[i])
}

/// Walks the page headers of the column chunks of one row group, in order, or returns `None`
/// on coming to a chunk without a place in the file.
fn scan_columns(file_bytes: &[u8], metadata: &ParquetMetaData, row_group: usize) -> (scanned: Option<
    Result<Vec<ColumnChunkPages>, ScanError>,
>)
    requires
        row_group < column_chunks(*metadata).len(),
    ensures
        scanned is Some <==> columns_scannable(
            file_bytes@,
            column_chunks(*metadata)[row_group as int],
        ),
        match (
            scanned,
            row_group_pages(file_bytes@, ranges(column_chunks(*metadata)[row_group as int])),
        ) {
            (Some(Ok(chunks)), Ok(expected)) => chunks_view(chunks@) == expected,
            (Some(Err(error)), Err(expected)) => error == expected,
            (None, _) => true,
            _ => false,
        },
{
    let ghost file = file_bytes@;
    let ghost columns = column_chunks(*metadata)[row_group as int];
    let ghost all = ranges(columns);
    let ghost f = |range: ByteRange| chunk_pages(file, range);
    let count: usize = column_count(metadata, row_group);
    let mut chunks: Vec<ColumnChunkPages> = Vec::with_capacity(count);
    assert(all.take(0) =~= Seq::empty());
    assert(chunks_view(chunks@) =~= Seq::empty());
    let mut i: usize = 0;
    while i < count
        invariant
            file == file_bytes@,
            row_group < column_chunks(*metadata).len(),
            columns == column_chunks(*metadata)[row_group as int],
            all == ranges(columns),
            f == (|range: ByteRange| chunk_pages(file, range)),
            count == columns.len(),
            i <= count,
            collect(all.take(i as int), f) == Ok::<Seq<ChunkPages>, ScanError>(
                chunks_view(chunks@),
            ),
            forall|j: int| 0 <= j < i ==> (#[trigger] columns[j]).is_placed(),
        decreases count - i,
    {
        proof {
            lemma_collect_next(all, f, i as int);
        }
        if !column_chunk(metadata, row_group, i).has_place() {
            assert(!columns_scannable(file, columns)) by {
                assert(row_group_pages(file, all.take(i as int)) is Ok);
                assert(!columns[i as int].is_placed());
            }
            return None;
        }
        let chunk: ColumnChunkPages = match scan_chunk(
            file_bytes,
            column_byte_range(metadata, row_group, i),
        ) {
            Ok(chunk) => chunk,
            Err(error) => {
                proof {
                    lemma_collect_error(all, f, i + 1);
                    lemma_columns_scannable_up_to_error(file, columns, i as int);
                }
                return Some(Err(error));
            },
        };
        let ghost before = chunks@;
        chunks.push(chunk);
        assert(chunks_view(chunks@) =~= chunks_view(before).push(chunk@));
        i = i + 1;
    }
    assert(all.take(i as int) =~= all);
    Some(Ok(chunks))
}

/// Once scanning a chunk fails nothing is asked of those behind it.
proof fn lemma_columns_scannable_up_to_error(file: Seq<u8>, columns: Seq<ColumnChunk>, i: int)
    requires
        0 <= i < columns.len(),
        row_group_pages(file, ranges(columns).take(i + 1)) is Err,
        forall|j: int| 0 <= j <= i ==> (#[trigger] columns[j]).is_placed(),
    ensures
        columns_scannable(file, columns),
{
    let all = ranges(columns);
    assert forall|j: int|
        0 <= j < columns.len() && row_group_pages(file, all.take(j)) is Ok implies (
    #[trigger] columns[j]).is_placed() by {
        if j > i {
            assert(all.take(j).take(i + 1) =~= all.take(i + 1));
            lemma_collect_error(
                all.take(j),
                |range: ByteRange| chunk_pages(file, range),
                i + 1,
            );
        }
    }
}

/// Once scanning a row group fails nothing is asked of those behind it.
proof fn lemma_scannable_up_to_error(file: Seq<u8>, row_groups: Seq<Seq<ColumnChunk>>, i: int)
    requires
        0 <= i < row_groups.len(),
        file_pages(file, file_ranges(row_groups).take(i + 1)) is Err,
        forall|k: int| 0 <= k <= i ==> columns_scannable(file, #[trigger] row_groups[k]),
    ensures
        scannable(file, row_groups),
{
    let all = file_ranges(row_groups);
    assert forall|k: int|
        0 <= k < row_groups.len() && file_pages(
            file,
            all.take(k),
        ) is Ok implies columns_scannable(file, #[trigger] row_groups[k]) by {
        if k > i {
            assert(all.take(k).take(i + 1) =~= all.take(i + 1));
            lemma_collect_error(
                all.take(k),
                |columns: Seq<ByteRange>| row_group_pages(file, columns),
                i + 1,
            );
        }
    }
}

/// Locates the compressed page bodies as [`scan_compressed_pages`] does, or returns `None` on
/// coming to a chunk to which the footer gives no place in the file.
pub fn checked_scan_compressed_pages(file_bytes: &[u8], metadata: &ParquetMetaData) -> (scanned:
    Option<Result<Vec<Vec<ColumnChunkPages>>, ScanError>>)
    ensures
        scanned is Some <==> scannable(file_bytes@, column_chunks(*metadata)),
        scanned matches Some(result) ==> scan_yields(
            result,
            file_pages(file_bytes@, file_ranges(column_chunks(*metadata))),
        ),
        scanned matches Some(Ok(row_groups)) ==> {
            &&& row_groups@.len() == column_chunks(*metadata).len()
            &&& forall|i: int|
                0 <= i < row_groups@.len() ==> (#[trigger] row_groups@[i])@.len()
                    == column_chunks(*metadata)[i].len()
            &&& forall|i: int, j: int|
                0 <= i < row_groups@.len() && 0 <= j < row_groups@[i]@.len() ==> {
                    let chunk = #[trigger] row_groups@[i]@[j];
                    chunk_pages(file_bytes@, column_chunks(*metadata)[i][j].range()) == Ok::<
                        ChunkPages,
                        ScanError,
                    >(ChunkPages { offset: chunk.offset, len: chunk.len, pages: chunk.pages@ })
                }
        },
        scanned matches Some(Err(error)) ==> file_pages(
            file_bytes@,
            file_ranges(column_chunks(*metadata)),
        ) == Err::<Seq<Seq<ChunkPages>>, ScanError>(error),
{
    let ghost file = file_bytes@;
    let ghost listed = column_chunks(*metadata);
    let ghost all = file_ranges(listed);
    let ghost f = |columns: Seq<ByteRange>| row_group_pages(file, columns);
    let count: usize = row_group_count(metadata);
    let mut row_groups: Vec<Vec<ColumnChunkPages>> = Vec::with_capacity(count);
    assert(all.take(0) =~= Seq::empty());
    assert(row_groups_view(row_groups@) =~= Seq::empty());
    let mut i: usize = 0;
    while i < count
        invariant
            file == file_bytes@,
            listed == column_chunks(*metadata),
            all == file_ranges(listed),
            f == (|columns: Seq<ByteRange>| row_group_pages(file, columns)),
            count == all.len(),
            i <= count,
            collect(all.take(i as int), f) == Ok::<Seq<Seq<ChunkPages>>, ScanError>(
                row_groups_view(row_groups@),
            ),
            forall|k: int| 0 <= k < i ==> columns_scannable(file, #[trigger] listed[k]),
        decreases count - i,
    {
        proof {
            lemma_collect_next(all, f, i as int);
        }
        let chunks: Vec<ColumnChunkPages> = match scan_columns(file_bytes, metadata, i) {
            None => {
                assert(!scannable(file, listed)) by {
                    assert(file_pages(file, all.take(i as int)) is Ok);
                    assert(!columns_scannable(file, listed[i as int]));
                }
                return None;
            },
            Some(Err(error)) => {
                proof {
                    lemma_collect_error(all, f, i + 1);
                    lemma_scannable_up_to_error(file, listed, i as int);
                }
                return Some(Err(error));
            },
            Some(Ok(chunks)) => chunks,
        };
        let ghost before = row_groups@;
        row_groups.push(chunks);
        assert(row_groups_view(row_groups@) =~= row_groups_view(before).push(chunks_view(chunks@)));
        i = i + 1;
    }
    proof {
        assert(all.take(i as int) =~= all);
        law_scan_keeps_the_footer_order(file, all);
        let pages = file_pages(file, all)->Ok_0;
        assert forall|i: int| 0 <= i < row_groups@.len() implies (
        #[trigger] row_groups@[i])@.len() == listed[i].len() by {
            assert(pages[i] == chunks_view(row_groups@[i]@));
            assert(all[i].len() == listed[i].len());
        }
        assert forall|i: int, j: int|
            0 <= i < row_groups@.len() && 0 <= j < row_groups@[i]@.len() implies {
            let chunk = #[trigger] row_groups@[i]@[j];
            chunk_pages(file, listed[i][j].range()) == Ok::<ChunkPages, ScanError>(
                ChunkPages { offset: chunk.offset, len: chunk.len, pages: chunk.pages@ },
            )
        } by {
            assert(pages[i] == chunks_view(row_groups@[i]@));
            assert(all[i] == ranges(listed[i]));
            assert(pages[i][j] == row_groups@[i]@[j]@);
            assert(all[i][j] == listed[i][j].range());
        }
    }
    Some(Ok(row_groups))
}

/// Walks the page headers of every column chunk that the footer lists and returns the
/// compressed page bodies, one entry per row group. Chunks and the pages within them are in
/// file order.
///
/// The footer must give every chunk that the scan comes to a place in the file;
/// [`checked_scan_compressed_pages`] tests that as it goes.
pub fn scan_compressed_pages(file_bytes: &[u8], metadata: &ParquetMetaData) -> (scanned: Result<
    Vec<Vec<ColumnChunkPages>>,
    ScanError,
>)
    requires
        scannable(file_bytes@, column_chunks(*metadata)),
    ensures
        scan_yields(
            scanned,
            file_pages(file_bytes@, file_ranges(column_chunks(*metadata))),
        ),
        scanned matches Ok(row_groups) ==> {
            &&& row_groups@.len() == column_chunks(*metadata).len()
            &&& forall|i: int|
                0 <= i < row_groups@.len() ==> (#[trigger] row_groups@[i])@.len()
                    == column_chunks(*metadata)[i].len()
            &&& forall|i: int, j: int|
                0 <= i < row_groups@.len() && 0 <= j < row_groups@[i]@.len() ==> {
                    let chunk = #[trigger] row_groups@[i]@[j];
                    chunk_pages(file_bytes@, column_chunks(*metadata)[i][j].range()) == Ok::<
                        ChunkPages,
                        ScanError,
                    >(ChunkPages { offset: chunk.offset, len: chunk.len, pages: chunk.pages@ })
                }
        },
        scanned matches Err(error) ==> file_pages(
            file_bytes@,
            file_ranges(column_chunks(*metadata)),
        ) == Err::<Seq<Seq<ChunkPages>>, ScanError>(error),
{
    checked_scan_compressed_pages(file_bytes, metadata).unwrap()
}

/// Whether pages lie end to end from `pos` to `end`, each with a header of its own.
pub open spec fn tile(spans: Seq<PageSpan>, pos: nat, end: nat) -> bool {
    &&& spans.len() == 0 ==> pos == end
    &&& spans.len() > 0 ==> spans[0].header == pos && spans.last().end == end
    &&& forall|i: int|
        0 <= i < spans.len() ==> (#[trigger] spans[i]).header < spans[i].body <= spans[i].end
    &&& forall|i: int, j: int|
        0 <= i && j == i + 1 && j < spans.len() ==> (#[trigger] spans[i]).end == (
        #[trigger] spans[j]).header
}

/// The bytes of the bodies of all pages.
pub open spec fn total_compressed(pages: Seq<CompressedPage>) -> nat
    decreases pages.len(),
{
    if pages.len() == 0 {
        0
    } else {
        total_compressed(pages.drop_last()) + pages.last().compressed_len as nat
    }
}

/// Whether the bodies lie in file order between `pos` and `end`, each after at least one
/// byte of header that no body covers.
pub open spec fn in_order(pages: Seq<CompressedPage>, pos: nat, end: nat) -> bool {
    &&& forall|i: int|
        0 <= i < pages.len() ==> pos < (#[trigger] pages[i]).offset && pages[i].offset
            + pages[i].compressed_len <= end
    &&& forall|i: int, j: int|
        0 <= i < j < pages.len() ==> (#[trigger] pages[i]).offset + pages[i].compressed_len < (
        #[trigger] pages[j]).offset
}

/// Whether the lengths of all bodies fit 32 bits, as the fields of a page header do.
pub open spec fn sizes_fit(pages: Seq<CompressedPage>) -> bool {
    forall|i: int|
        0 <= i < pages.len() ==> (#[trigger] pages[i]).compressed_len <= i32::MAX
            && pages[i].uncompressed_len <= i32::MAX
}

/// The lengths that page headers give fit 32 bits.
proof fn lemma_span_sizes(file: Seq<u8>, pos: nat, end: nat)
    requires
        pos <= end <= file.len() <= usize::MAX,
        page_spans(file, pos, end) is Ok,
    ensures
        forall|i: int|
            0 <= i < page_spans(file, pos, end)->Ok_0.len() ==> {
                let span = #[trigger] page_spans(file, pos, end)->Ok_0[i];
                span.end - span.body <= i32::MAX && span.uncompressed_len <= i32::MAX
            },
    decreases end - pos,
{
    if pos < end {
        let bytes = file.subrange(pos as int, end as int);
        lemma_page_header_in_bytes(bytes);
        let span = span_of(pos, page_header(bytes)->Ok_0);
        lemma_span_sizes(file, span.end, end);
        let rest = page_spans(file, span.end, end)->Ok_0;
        let spans = page_spans(file, pos, end)->Ok_0;
        assert(spans == seq![span] + rest);
        assert forall|i: int| 0 <= i < spans.len() implies {
            let span = #[trigger] spans[i];
            span.end - span.body <= i32::MAX && span.uncompressed_len <= i32::MAX
        } by {
            if i > 0 {
                assert(spans[i] == rest[i - 1]);
            }
        }
    }
}

/// The lengths of bodies are those of their pages.
proof fn lemma_body_sizes(spans: Seq<PageSpan>)
    requires
        forall|i: int|
            0 <= i < spans.len() ==> 0 <= (#[trigger] spans[i]).end - spans[i].body <= i32::MAX
                && spans[i].uncompressed_len <= i32::MAX,
    ensures
        sizes_fit(bodies(spans)),
    decreases spans.len(),
{
    if spans.len() > 0 {
        lemma_body_sizes(spans.drop_last());
        assert(spans.last() == spans[spans.len() - 1]);
    }
}

/// The pages found in a column chunk tile it: they lie end to end, and no byte of the chunk
/// is left unaccounted for.
pub proof fn law_pages_tile_their_chunk(file: Seq<u8>, pos: nat, end: nat)
    requires
        pos <= end <= file.len() <= usize::MAX,
        page_spans(file, pos, end) is Ok,
    ensures
        tile(page_spans(file, pos, end)->Ok_0, pos, end),
    decreases end - pos,
{
    if pos < end {
        let bytes = file.subrange(pos as int, end as int);
        lemma_page_header_in_bytes(bytes);
        let info = page_header(bytes)->Ok_0;
        let span = span_of(pos, info);
        law_pages_tile_their_chunk(file, span.end, end);
        let rest = page_spans(file, span.end, end)->Ok_0;
        let spans = page_spans(file, pos, end)->Ok_0;
        assert(spans == seq![span] + rest);
        assert forall|i: int| 0 <= i < spans.len() implies (#[trigger] spans[i]).header
            < spans[i].body <= spans[i].end by {
            if i > 0 {
                assert(spans[i] == rest[i - 1]);
            }
        }
        assert forall|i: int, j: int| 0 <= i && j == i + 1 && j < spans.len() implies (
        #[trigger] spans[i]).end == (#[trigger] spans[j]).header by {
            if i > 0 {
                assert(spans[i] == rest[i - 1]);
                assert(spans[j] == rest[j - 1]);
            } else {
                assert(spans[j] == rest[0]);
            }
        }
        if rest.len() > 0 {
            assert(spans.last() == rest.last());
        }
    }
}

/// Whether two files have the bytes of the pages' headers in common.
pub open spec fn same_headers(a: Seq<u8>, b: Seq<u8>, spans: Seq<PageSpan>) -> bool {
    forall|i: int, at: int|
        #![trigger spans[i], a[at]]
        0 <= i < spans.len() && spans[i].header <= at < spans[i].body ==> a[at] == b[at]
}

/// Page bodies never influence where pages are found: a file that differs only in them has
/// the same pages at the same places.
pub proof fn law_bodies_do_not_influence_the_page_map(
    file: Seq<u8>,
    other: Seq<u8>,
    pos: nat,
    end: nat,
)
    requires
        pos <= end <= file.len() <= usize::MAX,
        end <= other.len(),
        page_spans(file, pos, end) is Ok,
        same_headers(file, other, page_spans(file, pos, end)->Ok_0),
    ensures
        page_spans(other, pos, end) == page_spans(file, pos, end),
    decreases end - pos,
{
    if pos < end {
        let bytes = file.subrange(pos as int, end as int);
        let theirs = other.subrange(pos as int, end as int);
        lemma_page_header_in_bytes(bytes);
        let info = page_header(bytes)->Ok_0;
        let span = span_of(pos, info);
        let rest = page_spans(file, span.end, end)->Ok_0;
        let spans = page_spans(file, pos, end)->Ok_0;
        assert(spans == seq![span] + rest);
        assert forall|i: int| 0 <= i < info.header_len implies #[trigger] bytes[i]
            == theirs[i] by {
            assert(spans[0] == span);
            assert(file[pos + i] == other[pos + i]);
        }
        law_header_depends_on_its_own_bytes(bytes, theirs);
        assert forall|i: int, at: int|
            #![trigger rest[i], file[at]]
            0 <= i < rest.len() && rest[i].header <= at < rest[i].body implies file[at]
            == other[at] by {
            assert(spans[i + 1] == rest[i]);
        }
        law_bodies_do_not_influence_the_page_map(file, other, span.end, end);
    }
}

/// The bodies among pages that tile a range lie in it in order, and together with a byte of
/// header each they take no more than the range.
proof fn lemma_bodies_in_order(spans: Seq<PageSpan>, pos: nat, end: nat)
    requires
        tile(spans, pos, end),
        pos <= end <= usize::MAX,
    ensures
        in_order(bodies(spans), pos, end),
        total_compressed(bodies(spans)) + bodies(spans).len() <= end - pos,
    decreases spans.len(),
{
    if spans.len() > 0 {
        let last = spans.last();
        let before = spans.drop_last();
        lemma_tile_prefix(spans, pos, end);
        lemma_bodies_in_order(before, pos, last.header);
        if holds_data(last) {
            let pages = bodies(spans);
            assert(pages.drop_last() =~= bodies(before));
            assert forall|i: int, j: int| 0 <= i < j < pages.len() implies (
            #[trigger] pages[i]).offset + pages[i].compressed_len < (
            #[trigger] pages[j]).offset by {
                assert(pages[i] == bodies(before)[i]);
                if j < pages.len() - 1 {
                    assert(pages[j] == bodies(before)[j]);
                }
            }
            assert forall|i: int| 0 <= i < pages.len() implies pos < (#[trigger] pages[i]).offset
                && pages[i].offset + pages[i].compressed_len <= end by {
                if i < pages.len() - 1 {
                    assert(pages[i] == bodies(before)[i]);
                }
            }
        }
    }
}

/// All but the last of the pages that tile a range tile what is in front of the last.
proof fn lemma_tile_prefix(spans: Seq<PageSpan>, pos: nat, end: nat)
    requires
        tile(spans, pos, end),
        spans.len() > 0,
    ensures
        tile(spans.drop_last(), pos, spans.last().header),
        pos <= spans.last().header < spans.last().body <= end,
    decreases spans.len(),
{
    let before = spans.drop_last();
    assert(spans.last() == spans[spans.len() - 1]);
    if before.len() > 0 {
        assert(before.last() == spans[spans.len() - 2]);
        assert(before[0] == spans[0]);
        assert forall|i: int| 0 <= i < before.len() implies (#[trigger] before[i]).header
            < before[i].body <= before[i].end by {
            assert(before[i] == spans[i]);
        }
        assert forall|i: int, j: int| 0 <= i && j == i + 1 && j < before.len() implies (
        #[trigger] before[i]).end == (#[trigger] before[j]).header by {
            assert(before[i] == spans[i]);
            assert(before[j] == spans[j]);
        }
        lemma_tile_prefix(before, pos, spans.last().header);
    }
}

/// The pages found in a column chunk lie in it in file order and do not overlap, and since
/// every one has a header, their bodies together are smaller than the chunk. Their lengths
/// fit 32 bits.
pub proof fn law_bodies_lie_in_their_chunk(file: Seq<u8>, range: ByteRange)
    requires
        file.len() <= usize::MAX,
        chunk_pages(file, range) is Ok,
    ensures
        range.offset + range.len <= file.len(),
        ({
            let chunk = chunk_pages(file, range)->Ok_0;
            &&& chunk.offset == range.offset
            &&& chunk.len == range.len
            &&& in_order(chunk.pages, range.offset as nat, (range.offset + range.len) as nat)
            &&& total_compressed(chunk.pages) + chunk.pages.len() <= range.len
            &&& sizes_fit(chunk.pages)
        }),
{
    let pos = range.offset as nat;
    let end = (range.offset + range.len) as nat;
    law_pages_tile_their_chunk(file, pos, end);
    lemma_bodies_in_order(page_spans(file, pos, end)->Ok_0, pos, end);
    lemma_span_sizes(file, pos, end);
    lemma_body_sizes(page_spans(file, pos, end)->Ok_0);
}

/// Scanning yields one entry for every row group and column chunk that the footer lists, in
/// the footer's order, and each is what scanning that chunk alone yields.
pub proof fn law_scan_keeps_the_footer_order(file: Seq<u8>, row_groups: Seq<Seq<ByteRange>>)
    requires
        file_pages(file, row_groups) is Ok,
    ensures
        ({
            let pages = file_pages(file, row_groups)->Ok_0;
            &&& pages.len() == row_groups.len()
            &&& forall|i: int|
                0 <= i < row_groups.len() ==> (#[trigger] pages[i]).len() == row_groups[i].len()
            &&& forall|i: int, j: int|
                0 <= i < row_groups.len() && 0 <= j < row_groups[i].len() ==> chunk_pages(
                    file,
                    row_groups[i][j],
                ) == Ok::<ChunkPages, ScanError>(#[trigger] pages[i][j])
        }),
{
    let f = |columns: Seq<ByteRange>| row_group_pages(file, columns);
    let g = |range: ByteRange| chunk_pages(file, range);
    lemma_collect_ok(row_groups, f);
    let pages = file_pages(file, row_groups)->Ok_0;
    assert forall|i: int| 0 <= i < row_groups.len() implies (#[trigger] pages[i]).len()
        == row_groups[i].len() by {
        assert(f(row_groups[i]) == Ok::<Seq<ChunkPages>, ScanError>(pages[i]));
        lemma_collect_ok(row_groups[i], g);
    }
    assert forall|i: int, j: int|
        0 <= i < row_groups.len() && 0 <= j < row_groups[i].len() implies chunk_pages(
        file,
        row_groups[i][j],
    ) == Ok::<ChunkPages, ScanError>(#[trigger] pages[i][j]) by {
        assert(f(row_groups[i]) == Ok::<Seq<ChunkPages>, ScanError>(pages[i]));
        lemma_collect_ok(row_groups[i], g);
        assert(g(row_groups[i][j]) == Ok::<ChunkPages, ScanError>(pages[i][j]));
    }
}

/// Of the pages of a chunk exactly those that hold column data are found, the data pages and
/// the dictionary pages, all of them and in their order, each with the place and the length of
/// its body and the length that its header declares.
pub proof fn law_every_data_page_is_found(file: Seq<u8>, range: ByteRange)
    requires
        chunk_pages(file, range) is Ok,
    ensures
        ({
            let spans = page_spans(
                file,
                range.offset as nat,
                (range.offset + range.len) as nat,
            )->Ok_0;
            let chunk = chunk_pages(file, range)->Ok_0;
            &&& chunk.offset == range.offset
            &&& chunk.len == range.len
            &&& chunk.pages == spans.filter(
                |span: PageSpan|
                    span.page_type == PageType::Data || span.page_type == PageType::Dictionary,
            ).map_values(
                |span: PageSpan|
                    CompressedPage {
                        offset: span.body as usize,
                        compressed_len: (span.end - span.body) as usize,
                        uncompressed_len: span.uncompressed_len,
                    },
            )
        }),
{
    lemma_bodies_filter(
        page_spans(file, range.offset as nat, (range.offset + range.len) as nat)->Ok_0,
    );
}

/// Taking bodies is filtering and taking what is to be known of each.
proof fn lemma_bodies_filter(spans: Seq<PageSpan>)
    ensures
        bodies(spans) == spans.filter(
            |span: PageSpan|
                span.page_type == PageType::Data || span.page_type == PageType::Dictionary,
        ).map_values(
            |span: PageSpan|
                CompressedPage {
                    offset: span.body as usize,
                    compressed_len: (span.end - span.body) as usize,
                    uncompressed_len: span.uncompressed_len,
                },
        ),
    decreases spans.len(),
{
    reveal(Seq::filter);
    let with_data = |span: PageSpan|
        span.page_type == PageType::Data || span.page_type == PageType::Dictionary;
    let body = |span: PageSpan|
        CompressedPage {
            offset: span.body as usize,
            compressed_len: (span.end - span.body) as usize,
            uncompressed_len: span.uncompressed_len,
        };
    if spans.len() > 0 {
        lemma_bodies_filter(spans.drop_last());
        let before = spans.drop_last().filter(with_data);
        assert(before.push(spans.last()).map_values(body) =~= before.map_values(body).push(
            body(spans.last()),
        ));
    }
    assert(bodies(spans) =~= spans.filter(with_data).map_values(body));
}

/// A chunk is refused where it does not fit the address space or the file, and only then
/// before any of its pages is looked at.
pub proof fn law_chunk_must_lie_in_the_file(file: Seq<u8>, range: ByteRange)
    ensures
        ({
            let fits = range.offset <= usize::MAX && range.len <= usize::MAX;
            let inside = range.offset + range.len <= file.len();
            let pages = chunk_pages(file, range);
            &&& !fits <==> pages == Err::<ChunkPages, ScanError>(
                ScanError::RangeOutOfAddressSpace { offset: range.offset, len: range.len },
            )
            &&& fits && !inside ==> pages == Err::<ChunkPages, ScanError>(
                ScanError::ChunkPastEnd { offset: range.offset, len: range.len },
            )
            &&& fits && inside ==> match page_spans(
                file,
                range.offset as nat,
                (range.offset + range.len) as nat,
            ) {
                Ok(_) => pages is Ok,
                Err(error) => pages == Err::<ChunkPages, ScanError>(error),
            }
        }),
{
    if range.offset <= usize::MAX && range.len <= usize::MAX && range.offset + range.len
        <= file.len() {
        lemma_spans_are_not_refused_for_their_range(
            file,
            range.offset as nat,
            (range.offset + range.len) as nat,
        );
    }
}

/// Walking pages finds no fault with the range that they lie in.
proof fn lemma_spans_are_not_refused_for_their_range(file: Seq<u8>, pos: nat, end: nat)
    ensures
        page_spans(file, pos, end) matches Err(error) ==> error is Header || error is BodyOverrun
            || error is DataPageV2,
    decreases end - pos,
{
    if pos < end {
        if let Ok(info) = page_header(file.subrange(pos as int, end as int)) {
            let span = span_of(pos, info);
            if pos < span.end <= end {
                lemma_spans_are_not_refused_for_their_range(file, span.end, end);
            }
        }
    }
}

/// Walking a range goes page by page: the header at its start says where the first page ends,
/// and the rest of the range is walked from there. It ends with an error at a header that
/// cannot be read, at a body that overruns the range, and at a page of version 2.
pub proof fn law_walk_goes_page_by_page(file: Seq<u8>, pos: nat, end: nat)
    requires
        pos < end <= file.len() <= usize::MAX,
    ensures
        match page_header(file.subrange(pos as int, end as int)) {
            Err(error) => page_spans(file, pos, end) == Err::<Seq<PageSpan>, ScanError>(
                ScanError::Header(error),
            ),
            Ok(info) => {
                let body = pos + info.header_len;
                let next = body + info.compressed_len;
                if next > end {
                    page_spans(file, pos, end) == Err::<Seq<PageSpan>, ScanError>(
                        ScanError::BodyOverrun {
                            body: body as usize,
                            compressed_len: info.compressed_len,
                        },
                    )
                } else if info.page_type is DataV2 {
                    page_spans(file, pos, end) == Err::<Seq<PageSpan>, ScanError>(
                        ScanError::DataPageV2,
                    )
                } else {
                    match page_spans(file, next as nat, end) {
                        Err(error) => page_spans(file, pos, end) == Err::<
                            Seq<PageSpan>,
                            ScanError,
                        >(error),
                        Ok(rest) => page_spans(file, pos, end) == Ok::<Seq<PageSpan>, ScanError>(
                            seq![
                                PageSpan {
                                    header: pos,
                                    body: body as nat,
                                    end: next as nat,
                                    page_type: info.page_type,
                                    uncompressed_len: info.uncompressed_len,
                                },
                            ] + rest,
                        ),
                    }
                }
            },
        },
        page_spans(file, end, end) == Ok::<Seq<PageSpan>, ScanError>(Seq::empty()),
{
    lemma_page_header_in_bytes(file.subrange(pos as int, end as int));
}

/// Two ranges side by side have the pages of the first and then those of the second.
pub proof fn law_adjacent_ranges_have_the_pages_of_both(
    file: Seq<u8>,
    pos: nat,
    middle: nat,
    end: nat,
)
    requires
        pos <= middle <= end <= file.len() <= usize::MAX,
        page_spans(file, pos, middle) is Ok,
        page_spans(file, middle, end) is Ok,
    ensures
        page_spans(file, pos, end) == Ok::<Seq<PageSpan>, ScanError>(
            page_spans(file, pos, middle)->Ok_0 + page_spans(file, middle, end)->Ok_0,
        ),
    decreases middle - pos,
{
    let after = page_spans(file, middle, end)->Ok_0;
    if pos < middle {
        let short = file.subrange(pos as int, middle as int);
        let long = file.subrange(pos as int, end as int);
        lemma_page_header_in_bytes(short);
        let info = page_header(short)->Ok_0;
        assert forall|i: int| 0 <= i < info.header_len implies #[trigger] short[i] == long[i] by {}
        law_header_depends_on_its_own_bytes(short, long);
        let next = span_of(pos, info).end;
        law_adjacent_ranges_have_the_pages_of_both(file, next, middle, end);
        let rest = page_spans(file, next, middle)->Ok_0;
        let span = span_of(pos, info);
        assert(seq![span] + (rest + after) =~= (seq![span] + rest) + after);
    } else {
        assert(Seq::<PageSpan>::empty() + after =~= after);
    }
}

/// The bodies that are to be found of pages written from `pos` on: those of data pages and of
/// dictionary pages.
pub open spec fn written_bodies(pages: Seq<WrittenPage>, pos: nat) -> Seq<CompressedPage>
    decreases pages.len(),
{
    if pages.len() == 0 {
        Seq::empty()
    } else {
        let body = pos + pages[0].header().len();
        let rest = written_bodies(pages.drop_first(), body + pages[0].body.len());
        if pages[0].page_type == 0 || pages[0].page_type == 2 {
            seq![
                CompressedPage {
                    offset: body as usize,
                    compressed_len: pages[0].body.len() as usize,
                    uncompressed_len: pages[0].uncompressed as usize,
                },
            ] + rest
        } else {
            rest
        }
    }
}

/// The pages that were written are found: wherever in a file a column chunk of pages stands,
/// with whatever fields in their headers, scanning it yields the bodies of all its data and
/// dictionary pages.
pub proof fn law_written_pages_are_found(
    file: Seq<u8>,
    range: ByteRange,
    pages: Seq<WrittenPage>,
)
    requires
        file.len() <= usize::MAX,
        pages_wf(pages),
        stand_at(file, range.offset as nat, pages_bytes(pages)),
        range.len == pages_bytes(pages).len(),
    ensures
        chunk_pages(file, range) == Ok::<ChunkPages, ScanError>(
            ChunkPages {
                offset: range.offset,
                len: range.len as usize,
                pages: written_bodies(pages, range.offset as nat),
            },
        ),
{
    lemma_written_pages_walk(file, range.offset as nat, pages);
}

/// Walking written pages comes past each.
proof fn lemma_written_pages_walk(file: Seq<u8>, pos: nat, pages: Seq<WrittenPage>)
    requires
        file.len() <= usize::MAX,
        pages_wf(pages),
        stand_at(file, pos, pages_bytes(pages)),
    ensures
        page_spans(file, pos, pos + pages_bytes(pages).len()) is Ok,
        bodies(page_spans(file, pos, pos + pages_bytes(pages).len())->Ok_0) == written_bodies(
            pages,
            pos,
        ),
    decreases pages.len(),
{
    let end = pos + pages_bytes(pages).len();
    if pages.len() > 0 {
        let page = pages[0];
        let header = page.header();
        let rest = pages.drop_first();
        lemma_stand_at_pieces(file, pos, header + page.body, pages_bytes(rest));
        lemma_stand_at_pieces(file, pos, header, page.body);
        let bytes = file.subrange(pos as int, end as int);
        assert(bytes.subrange(0, header.len() as int) =~= file.subrange(
            pos as int,
            (pos + header.len()) as int,
        ));
        lemma_written_page_header(bytes, page);
        let next = pos + header.len() + page.body.len();
        assert forall|i: int| 0 <= i < rest.len() implies (#[trigger] rest[i]).wf()
            && rest[i].page_type != 3 by {
            assert(rest[i] == pages[i + 1]);
        }
        assert(pages[0].wf() && pages[0].page_type != 3);
        lemma_written_pages_walk(file, next, rest);
        let info = page_header(bytes)->Ok_0;
        let span = span_of(pos, info);
        assert(span.end == next);
        let after = page_spans(file, next, end)->Ok_0;
        assert(page_spans(file, pos, end) == Ok::<Seq<PageSpan>, ScanError>(seq![span] + after));
        lemma_bodies_of_first(span, after);
    }
}

/// The bodies of pages are that of the first, if it has one, and those of the rest.
proof fn lemma_bodies_of_first(span: PageSpan, rest: Seq<PageSpan>)
    ensures
        bodies(seq![span] + rest) == if holds_data(span) {
            seq![body_of(span)] + bodies(rest)
        } else {
            bodies(rest)
        },
    decreases rest.len(),
{
    let all = seq![span] + rest;
    if rest.len() == 0 {
        assert(all.drop_last() =~= Seq::empty());
        assert(all.last() == span);
        assert(bodies(rest) =~= Seq::empty());
        assert(bodies(all.drop_last()) =~= Seq::empty());
        assert(bodies(all) =~= if holds_data(span) {
            seq![body_of(span)] + bodies(rest)
        } else {
            bodies(rest)
        });
    } else {
        lemma_bodies_of_first(span, rest.drop_last());
        assert(all.drop_last() =~= seq![span] + rest.drop_last());
        assert(all.last() == rest.last());
        assert(bodies(all) =~= if holds_data(span) {
            seq![body_of(span)] + bodies(rest)
        } else {
            bodies(rest)
        });
    }
}

/// A file whose footer gives every chunk a place can be scanned.
pub proof fn law_placed_chunks_can_be_scanned(
    file: Seq<u8>,
    row_groups: Seq<Seq<ColumnChunk>>,
)
    requires
        forall|i: int, j: int|
            0 <= i < row_groups.len() && 0 <= j < row_groups[i].len() ==> {
                let chunk = #[trigger] row_groups[i][j];
                chunk.compressed_size >= 0 && match chunk.dictionary_page_offset {
                    Some(offset) => offset >= 0,
                    None => chunk.data_page_offset >= 0,
                }
            },
    ensures
        scannable(file, row_groups),
{
}

/// A file is scanned exactly where each of its chunks is; else the fault of the first chunk
/// that has one is reported, row group by row group and column by column.
pub proof fn law_scan_reports_the_first_fault(file: Seq<u8>, row_groups: Seq<Seq<ByteRange>>)
    ensures
        match file_pages(file, row_groups) {
            Ok(_) => forall|i: int, j: int|
                0 <= i < row_groups.len() && 0 <= j < row_groups[i].len() ==> chunk_pages(
                    file,
                    #[trigger] row_groups[i][j],
                ) is Ok,
            Err(error) => exists|i: int, j: int|
                0 <= i < row_groups.len() && 0 <= j < row_groups[i].len() && chunk_pages(
                    file,
                    #[trigger] row_groups[i][j],
                ) == Err::<ChunkPages, ScanError>(error) && forall|k: int, l: int|
                    0 <= k < row_groups.len() && 0 <= l < row_groups[k].len() && (k < i || (k == i
                        && l < j)) ==> chunk_pages(file, #[trigger] row_groups[k][l]) is Ok,
        },
{
    let f = |columns: Seq<ByteRange>| row_group_pages(file, columns);
    let g = |range: ByteRange| chunk_pages(file, range);
    law_collecting_stops_at_the_first_error(row_groups, f);
    match file_pages(file, row_groups) {
        Ok(pages) => {
            law_scan_keeps_the_footer_order(file, row_groups);
            assert forall|i: int, j: int|
                0 <= i < row_groups.len() && 0 <= j < row_groups[i].len() implies chunk_pages(
                file,
                #[trigger] row_groups[i][j],
            ) is Ok by {
                assert(chunk_pages(file, row_groups[i][j]) == Ok::<ChunkPages, ScanError>(
                    pages[i][j],
                ));
            }
        },
        Err(error) => {
            let i = choose|i: int|
                0 <= i < row_groups.len() && f(#[trigger] row_groups[i]) == Err::<
                    Seq<ChunkPages>,
                    ScanError,
                >(error) && forall|k: int| 0 <= k < i ==> f(#[trigger] row_groups[k]) is Ok;
            law_collecting_stops_at_the_first_error(row_groups[i], g);
            assert(collect(row_groups[i], g) == Err::<Seq<ChunkPages>, ScanError>(error));
            let j = choose|j: int|
                0 <= j < row_groups[i].len() && g(#[trigger] row_groups[i][j]) == Err::<
                    ChunkPages,
                    ScanError,
                >(error) && forall|l: int|
                    0 <= l < j ==> g(#[trigger] row_groups[i][l]) is Ok;
            assert(chunk_pages(file, row_groups[i][j]) == Err::<ChunkPages, ScanError>(error));
            assert forall|k: int, l: int|
                0 <= k < row_groups.len() && 0 <= l < row_groups[k].len() && (k < i || (k == i && l
                    < j)) implies chunk_pages(file, #[trigger] row_groups[k][l]) is Ok by {
                if k < i {
                    assert(f(row_groups[k]) is Ok);
                    law_collecting_stops_at_the_first_error(row_groups[k], g);
                    assert(g(row_groups[k][l]) is Ok);
                } else {
                    assert(g(row_groups[i][l]) is Ok);
                }
            }
        },
    }
}

/// The values of chunks have all that the chunks have, in order.
pub proof fn law_chunk_values_have_all_of_the_chunks(row_groups: Seq<Vec<ColumnChunkPages>>)
    ensures
        row_groups_view(row_groups).len() == row_groups.len(),
        forall|i: int|
            0 <= i < row_groups.len() ==> (#[trigger] row_groups_view(row_groups)[i]).len()
                == row_groups[i]@.len(),
        forall|i: int, j: int|
            0 <= i < row_groups.len() && 0 <= j < row_groups[i]@.len() ==> {
                let value = #[trigger] row_groups_view(row_groups)[i][j];
                &&& value.offset == row_groups[i]@[j].offset
                &&& value.len == row_groups[i]@[j].len
                &&& value.pages == row_groups[i]@[j].pages@
            },
        forall|i: int|
            0 <= i < row_groups.len() ==> #[trigger] row_groups_view(row_groups)[i] == chunks_view(
                row_groups[i]@,
            ),
{
}

/// The ranges of a file are those of its column chunks, row group by row group.
pub proof fn law_file_ranges_are_those_of_the_chunks(row_groups: Seq<Seq<ColumnChunk>>)
    ensures
        file_ranges(row_groups).len() == row_groups.len(),
        forall|i: int|
            0 <= i < row_groups.len() ==> (#[trigger] file_ranges(row_groups)[i]).len()
                == row_groups[i].len(),
        forall|i: int, j: int|
            0 <= i < row_groups.len() && 0 <= j < row_groups[i].len() ==> #[trigger] file_ranges(
                row_groups,
            )[i][j] == row_groups[i][j].range(),
{
}

} // verus!
