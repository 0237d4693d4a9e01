//! The two backends whose decompression is measured on the device.

use crate::backend::AlignmentRequirements;
use crate::codec::GpuCodec;
use crate::metadata::{
    column_chunk, column_chunks, column_count, row_group_count, ColumnChunk,
};
use crate::nvcomp::NvcompError;
use crate::plan::{file_fits, file_plan, DecompressPlan, GroupPlan, PlanError};
use crate::run::{ParquetRun, VortexAction, VortexRun};
use crate::scan::{
    checked_scan_compressed_pages, file_pages, file_ranges, scannable, ChunkPages,
    ColumnChunkPages, ScanError,
};
use parquet::basic::Compression;
use parquet::file::metadata::ParquetMetaData;
use vstd::prelude::*;

verus! {

/// The file formats whose decompression is measured on the device.
#[derive(Clone, Copy, Debug, PartialEq, Eq, Structural)]
pub enum Format {
    /// Parquet.
    Parquet,
    /// Vortex, from a file on disk.
    OnDiskVortex,
}

/// Parquet compressor whose decompression measurement runs the page codec on the device.
#[derive(Clone, Copy, Debug, PartialEq, Eq, Structural)]
pub struct GpuParquetCompressor {
    /// The page codec.
    pub codec: GpuCodec,
    /// Whether every decompressed page is compared with the host decoder's output.
    pub verify: bool,
}

/// A column chunk that was written with another codec than expected.
#[derive(Clone, Copy, Debug, PartialEq, Eq)]
pub struct CodecMismatch {
    /// The chunk's row group.
    pub row_group: usize,
    /// The chunk's index in its row group.
    pub column: usize,
    /// The codec that it was written with.
    pub compression: Compression,
}

/// Why a file cannot be decompressed on the device.
#[derive(Clone, Copy, Debug, PartialEq, Eq)]
pub enum PrepareError {
    /// A column chunk was written with another codec.
    Codec(CodecMismatch),
    /// The pages could not be located.
    Scan(ScanError),
    /// The launches could not be planned.
    Plan(PlanError),
}

/// Whether the chunk at (`i`, `j`) stands before the chunk at (`row_group`, `column`).
pub open spec fn precedes(i: int, j: int, row_group: int, column: int) -> bool {
    i < row_group || (i == row_group && j < column)
}

/// Whether all column chunks were written with `codec`.
pub open spec fn all_written_with(codec: GpuCodec, row_groups: Seq<Seq<ColumnChunk>>) -> bool {
    forall|i: int, j: int|
        0 <= i < row_groups.len() && 0 <= j < row_groups[i].len() ==> codec.wrote(
            (#[trigger] row_groups[i][j]).compression,
        )
}

/// Whether `mismatch` is the first column chunk that was not written with `codec`.
pub open spec fn first_mismatch(
    codec: GpuCodec,
    row_groups: Seq<Seq<ColumnChunk>>,
    mismatch: CodecMismatch,
) -> bool {
    &&& mismatch.row_group < row_groups.len()
    &&& mismatch.column < row_groups[mismatch.row_group as int].len()
    &&& mismatch.compression
        == row_groups[mismatch.row_group as int][mismatch.column as int].compression
    &&& !codec.wrote(mismatch.compression)
    &&& forall|i: int, j: int|
        0 <= i < row_groups.len() && 0 <= j < row_groups[i].len() && precedes(
            i,
            j,
            mismatch.row_group as int,
            mismatch.column as int,
        ) ==> codec.wrote((#[trigger] row_groups[i][j]).compression)
}

/// Whether preparing a file went as its bytes and footer say: the codec is checked first,
/// then the pages are located, then the launches are planned.
pub open spec fn prepares(
    codec: GpuCodec,
    file: Seq<u8>,
    row_groups: Seq<Seq<ColumnChunk>>,
    alignment: Result<AlignmentRequirements, NvcompError>,
    prepared: Result<Seq<GroupPlan>, PrepareError>,
) -> bool {
    if !all_written_with(codec, row_groups) {
        prepared matches Err(PrepareError::Codec(mismatch)) && first_mismatch(
            codec,
            row_groups,
            mismatch,
        )
    } else {
        match file_pages(file, file_ranges(row_groups)) {
            Err(error) => prepared == Err::<Seq<GroupPlan>, _>(PrepareError::Scan(error)),
            Ok(pages) => prepared == match file_plan(pages, codec, alignment) {
                Err(error) => Err(PrepareError::Plan(error)),
                Ok(plans) => Ok(plans),
            },
        }
    }
}

/// Whether a file can be prepared: as far as it is looked at, every chunk has a place in it
/// and the output of every row group can be addressed.
pub open spec fn preparable(
    codec: GpuCodec,
    file: Seq<u8>,
    row_groups: Seq<Seq<ColumnChunk>>,
    alignment: Result<AlignmentRequirements, NvcompError>,
) -> bool {
    all_written_with(codec, row_groups) ==> {
        &&& scannable(file, row_groups)
        &&& file_pages(file, file_ranges(row_groups)) matches Ok(pages) ==> file_fits(
            pages,
            codec,
            alignment,
        )
    }
}

/// A prepared plan, as a value.
pub open spec fn prepared_view(prepared: Result<DecompressPlan, PrepareError>) -> Result<
    Seq<GroupPlan>,
    PrepareError,
> {
    match prepared {
        Ok(plan) => Ok(plan@),
        Err(error) => Err(error),
    }
}

impl GpuParquetCompressor {
    /// Creates a backend that writes pages with `codec` and decompresses them with nvcomp.
    ///
    /// When `verify` is set, every decompressed page is copied back and compared with the
    /// host decoder's output before the measurement is reported.
    pub fn new(codec: GpuCodec, verify: bool) -> (compressor: Self)
        ensures
            compressor.codec == codec,
            compressor.verify == verify,
    {
        GpuParquetCompressor { codec, verify }
    }

    /// The format that the backend measures.
    pub fn format(&self) -> (format: Format)
        ensures
            format == Format::Parquet,
    {
        Format::Parquet
    }

    /// Checks that every column chunk was written with the backend's codec, and fails on the
    /// first that was not.
    pub fn check_codec(&self, metadata: &ParquetMetaData) -> (checked: Result<(), CodecMismatch>)
        ensures
            checked is Ok <==> all_written_with(self.codec, column_chunks(*metadata)),
            checked matches Err(mismatch) ==> first_mismatch(
                self.codec,
                column_chunks(*metadata),
                mismatch,
            ),
            ({
                let chunks = column_chunks(*metadata);
                &&& checked is Ok <==> forall|i: int, j: int|
                    0 <= i < chunks.len() && 0 <= j < chunks[i].len() ==> {
                        let compression = (#[trigger] chunks[i][j]).compression;
                        &&& self.codec is Snappy ==> compression is SNAPPY
                        &&& self.codec is Zstd ==> compression is ZSTD
                    }
                &&& checked matches Err(mismatch) ==> {
                    &&& mismatch.row_group < chunks.len()
                    &&& mismatch.column < chunks[mismatch.row_group as int].len()
                    &&& mismatch.compression
                        == chunks[mismatch.row_group as int][mismatch.column as int].compression
                    &&& self.codec is Snappy ==> !(mismatch.compression is SNAPPY)
                    &&& self.codec is Zstd ==> !(mismatch.compression is ZSTD)
                }
            }),
    {
        let ghost row_groups = column_chunks(*metadata);
        let group_count: usize = row_group_count(metadata);
        let mut row_group: usize = 0;
        while row_group < group_count
            invariant
                row_groups == column_chunks(*metadata),
                group_count == row_groups.len(),
                row_group <= group_count,
                forall|i: int, j: int|
                    0 <= i < row_group && 0 <= j < row_groups[i].len() ==> self.codec.wrote(
                        (#[trigger] row_groups[i][j]).compression,
                    ),
            decreases group_count - row_group,
        {
            let count: usize = column_count(metadata, row_group);
            let mut column: usize = 0;
            while column < count
                invariant
                    row_groups == column_chunks(*metadata),
                    row_group < row_groups.len(),
                    count == row_groups[row_group as int].len(),
                    column <= count,
                    forall|i: int, j: int|
                        0 <= i < row_groups.len() && 0 <= j < row_groups[i].len() && precedes(
                            i,
                            j,
                            row_group as int,
                            column as int,
                        ) ==> self.codec.wrote((#[trigger] row_groups[i][j]).compression),
                decreases count - column,
            {
                let chunk: ColumnChunk = column_chunk(metadata, row_group, column);
                if !self.codec.matches(chunk.compression) {
                    assert(!self.codec.wrote(
                        row_groups[row_group as int][column as int].compression,
                    ));
                    return Err(
                        CodecMismatch { row_group, column, compression: chunk.compression },
                    );
                }
                column = column + 1;
            }
            row_group = row_group + 1;
        }
        Ok(())
    }

    /// Prepares a file for decompression on the device: checks its codec, locates its pages,
    /// and plans its launches, given what nvcomp answered when asked which alignments the
    /// codec needs.
    ///
    /// Returns `None` where the footer gives some chunk no place in the file, or where the
    /// output of some row group cannot be addressed.
    pub fn prepare(
        &self,
        file_bytes: &[u8],
        metadata: &ParquetMetaData,
        alignment: Result<AlignmentRequirements, NvcompError>,
    ) -> (prepared: Option<Result<DecompressPlan, PrepareError>>)
        ensures
            prepared is Some <==> preparable(
                self.codec,
                file_bytes@,
                column_chunks(*metadata),
                alignment,
            ),
            prepared matches Some(result) ==> prepares(
                self.codec,
                file_bytes@,
                column_chunks(*metadata),
                alignment,
                prepared_view(result),
            ),
            prepared matches Some(Ok(plan)) ==> {
                let chunks = column_chunks(*metadata);
                let pages = file_pages(file_bytes@, file_ranges(chunks));
                &&& forall|i: int, j: int|
                    0 <= i < chunks.len() && 0 <= j < chunks[i].len() ==> {
                        let compression = (#[trigger] chunks[i][j]).compression;
                        &&& self.codec is Snappy ==> compression is SNAPPY
                        &&& self.codec is Zstd ==> compression is ZSTD
                    }
                &&& pages is Ok
                &&& file_plan(pages->Ok_0, self.codec, alignment) == Ok::<
                    Seq<GroupPlan>,
                    PlanError,
                >(plan@)
                &&& plan.row_groups@.len() == chunks.len()
            },
            prepared matches Some(Err(error)) ==> {
                let pages = file_pages(file_bytes@, file_ranges(column_chunks(*metadata)));
                match error {
                    PrepareError::Codec(mismatch) => first_mismatch(
                        self.codec,
                        column_chunks(*metadata),
                        mismatch,
                    ),
                    PrepareError::Scan(fault) => pages == Err::<Seq<Seq<ChunkPages>>, ScanError>(
                        fault,
                    ),
                    PrepareError::Plan(fault) => pages is Ok && file_plan(
                        pages->Ok_0,
                        self.codec,
                        alignment,
                    ) == Err::<Seq<GroupPlan>, PlanError>(fault),
                }
            },
    {
        if let Err(mismatch) = self.check_codec(metadata) {
            return Some(Err(PrepareError::Codec(mismatch)));
        }
        let row_groups: Vec<Vec<ColumnChunkPages>> = match checked_scan_compressed_pages(
            file_bytes,
            metadata,
        ) {
            None => return None,
            Some(Err(error)) => return Some(Err(PrepareError::Scan(error))),
            Some(Ok(row_groups)) => row_groups,
        };
        match DecompressPlan::checked_build(row_groups.as_slice(), self.codec, alignment) {
            None => None,
            Some(Err(error)) => Some(Err(PrepareError::Plan(error))),
            Some(Ok(plan)) => Some(Ok(plan)),
        }
    }

    /// Starts measuring the decompression of a planned file.
    pub fn start(&self, plan: &DecompressPlan) -> (run: ParquetRun)
        ensures
            run == ParquetRun::initial(plan@.len() as usize, self.verify),
            run.wf(),
            run.step() == 0,
            run.row_groups == plan.row_groups@.len(),
            run.verify == self.verify,
            run.elapsed == 0,
    {
        ParquetRun::start(plan.row_groups.len(), self.verify)
    }
}

/// Vortex compressor whose decompression measurement decodes files on the device.
#[derive(Clone, Copy, Debug, PartialEq, Eq, Structural)]
pub struct GpuVortexCompressor {
    /// Whether each decoded field is compared with the same field decoded on the host.
    pub verify: bool,
}

/// Why the Vortex backend does not compress.
#[derive(Clone, Copy, Debug, PartialEq, Eq, Structural)]
pub enum CompressError {
    /// Only decompression is measured on the device.
    OnlyDecompression,
}

impl GpuVortexCompressor {
    /// Creates the backend.
    ///
    /// When `verify` is set, each field decoded on the device is copied back and compared
    /// with the same field decoded on the host. That happens inline, so timings from a
    /// verifying run are not comparable to those of a plain one.
    pub fn new(verify: bool) -> (compressor: Self)
        ensures
            compressor.verify == verify,
    {
        GpuVortexCompressor { verify }
    }

    /// The format that the backend measures.
    pub fn format(&self) -> (format: Format)
        ensures
            format == Format::OnDiskVortex,
    {
        Format::OnDiskVortex
    }

    /// Compression is not measured on the device.
    pub fn compress(&self) -> (measured: Result<u64, CompressError>)
        ensures
            measured == Err::<u64, CompressError>(CompressError::OnlyDecompression),
    {
        Err(CompressError::OnlyDecompression)
    }

    /// Starts measuring the decompression of a file.
    pub fn start(&self) -> (run: VortexRun)
        ensures
            run.wf(),
            run.verify == self.verify,
            run.action == VortexAction::NextBatch,
    {
        VortexRun::start(self.verify)
    }
}

/// The mismatch that is reported is the first: every chunk in front of it, in its row group or
/// an earlier one, was written with the codec.
pub proof fn law_reported_mismatch_is_the_first(
    codec: GpuCodec,
    row_groups: Seq<Seq<ColumnChunk>>,
    mismatch: CodecMismatch,
)
    requires
        first_mismatch(codec, row_groups, mismatch),
    ensures
        mismatch.row_group < row_groups.len(),
        mismatch.column < row_groups[mismatch.row_group as int].len(),
        mismatch.compression
            == row_groups[mismatch.row_group as int][mismatch.column as int].compression,
        codec is Snappy ==> !(mismatch.compression is SNAPPY),
        codec is Zstd ==> !(mismatch.compression is ZSTD),
        forall|i: int, j: int|
            0 <= i < row_groups.len() && 0 <= j < row_groups[i].len() && (i < mismatch.row_group
                || (i == mismatch.row_group && j < mismatch.column)) ==> {
                let compression = (#[trigger] row_groups[i][j]).compression;
                &&& codec is Snappy ==> compression is SNAPPY
                &&& codec is Zstd ==> compression is ZSTD
            },
{
}

/// A file can be prepared, or refused, wherever it can be scanned and the output of what was
/// found can be addressed.
pub proof fn law_files_in_reach_can_be_prepared(
    codec: GpuCodec,
    file: Seq<u8>,
    row_groups: Seq<Seq<ColumnChunk>>,
    alignment: Result<AlignmentRequirements, NvcompError>,
)
    requires
        scannable(file, row_groups),
        file_pages(file, file_ranges(row_groups)) matches Ok(pages) ==> file_fits(
            pages,
            codec,
            alignment,
        ),
    ensures
        preparable(codec, file, row_groups, alignment),
{
}

} // verus!
