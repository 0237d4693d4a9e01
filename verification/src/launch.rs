//! Issuing a planned launch, and checking what came of it.
//!
//! A batched launch takes tables of addresses and sizes, one entry per page. It reports the
//! pages that failed in device memory rather than by failing itself, so its status and size
//! tables have to be read back and checked.

use crate::backend::AlignmentRequirements;
use crate::codec::{
    snappy_decoded, snappy_len_allocatable, zeros, zstd_decoded, GpuCodec, HostDecodeError,
};
use crate::collect::lemma_collect_ok;
use crate::metadata::ByteRange;
use crate::nvcomp::NVCOMP_SUCCESS;
use crate::plan::{
    chunks_hold_their_pages, group_fits, group_plan, law_plan_lays_pages_out,
    law_plan_reads_staged_bytes, law_plan_takes_pages_from_their_chunks, GroupPlan, PlannedPage,
    RowGroupPlan,
};
use crate::scan::{
    chunk_pages, in_order, law_bodies_lie_in_their_chunk, row_group_pages, sizes_fit, ChunkPages,
    ScanError,
};
use crate::snappy::{
    decompress_alignment_requirements, decompress_async, default_opts, get_decompress_temp_size,
    AlignmentQuery, SnappyDecompressOpts, SnappyLaunch, TempSizeQuery,
};
use vstd::prelude::*;
use vstd::slice::slice_subrange;

verus! {

/// A query for the alignments that a codec needs, with its default options.
#[derive(Clone, Copy, Debug)]
pub enum AlignmentCall {
    /// The query of the Snappy decompressor.
    Snappy(AlignmentQuery),
    /// The query of the Zstd decompressor, which has no options to set.
    Zstd,
}

/// Asks which alignments a codec needs.
pub fn decompress_alignments(codec: GpuCodec) -> (call: AlignmentCall)
    ensures
        match (codec, call) {
            (GpuCodec::Snappy, AlignmentCall::Snappy(query)) => default_opts().encoded_by(
                query.opts,
            ) && query.opts.backend == 0 && query.opts.sort_before_hw_decompress == 0,
            (GpuCodec::Zstd, AlignmentCall::Zstd) => true,
            _ => false,
        },
{
    match codec {
        GpuCodec::Snappy => AlignmentCall::Snappy(
            decompress_alignment_requirements(SnappyDecompressOpts::default()),
        ),
        GpuCodec::Zstd => AlignmentCall::Zstd,
    }
}

/// The size of a batch.
#[derive(Clone, Copy, Debug, PartialEq, Eq, Structural)]
pub struct BatchSize {
    /// Number of compressed chunks to decompress.
    pub num_chunks: usize,
    /// Maximum uncompressed size of any single chunk.
    pub max_uncompressed_chunk_bytes: usize,
    /// Total uncompressed size across all chunks.
    pub max_total_uncompressed_bytes: usize,
}

/// A query for the size of the workspace of a launch, with the codec's default options.
#[derive(Clone, Copy, Debug)]
pub enum TempSizeCall {
    /// The query of the Snappy decompressor.
    Snappy(TempSizeQuery),
    /// The query of the Zstd decompressor.
    Zstd(BatchSize),
}

/// Asks for the size of the workspace of a planned launch.
pub fn temp_size_call(plan: &RowGroupPlan, codec: GpuCodec) -> (call: TempSizeCall)
    ensures
        match (codec, call) {
            (GpuCodec::Snappy, TempSizeCall::Snappy(query)) => query.asks(
                plan@.pages.len() as usize,
                plan@.max_uncompressed,
                plan@.output_len,
                default_opts(),
            ) && query.num_chunks == plan.pages@.len() && query.max_uncompressed_chunk_bytes
                == plan.max_uncompressed && query.max_total_uncompressed_bytes == plan.output_len
                && query.opts.backend == 0 && query.opts.sort_before_hw_decompress == 0,
            (GpuCodec::Zstd, TempSizeCall::Zstd(size)) => size == (BatchSize {
                num_chunks: plan@.pages.len() as usize,
                max_uncompressed_chunk_bytes: plan@.max_uncompressed,
                max_total_uncompressed_bytes: plan@.output_len,
            }),
            _ => false,
        },
{
    let num_pages: usize = plan.pages.len();
    match codec {
        GpuCodec::Snappy => TempSizeCall::Snappy(
            get_decompress_temp_size(num_pages, plan.max_uncompressed, plan.output_len),
        ),
        GpuCodec::Zstd => TempSizeCall::Zstd(
            BatchSize {
                num_chunks: num_pages,
                max_uncompressed_chunk_bytes: plan.max_uncompressed,
                max_total_uncompressed_bytes: plan.output_len,
            },
        ),
    }
}

/// The tables that a launch takes, one entry per page.
#[derive(Debug, PartialEq, Eq)]
pub struct LaunchTables {
    /// Device address of each compressed page.
    pub compressed_ptrs: Vec<u64>,
    /// Length of each compressed page.
    pub compressed_sizes: Vec<usize>,
    /// Length of each page once decompressed.
    pub uncompressed_sizes: Vec<usize>,
    /// Device address of each page's output.
    pub output_ptrs: Vec<u64>,
}

/// Whether a page can be addressed, given where each chunk and the output were allocated.
pub open spec fn addressable(page: PlannedPage, chunk_bases: Seq<u64>, output_base: u64) -> bool {
    &&& page.chunk < chunk_bases.len()
    &&& chunk_bases[page.chunk as int] + page.offset_in_chunk <= u64::MAX
    &&& output_base + page.output_offset <= u64::MAX
}

/// Builds the tables of a planned launch, given where each chunk and the output were
/// allocated, or returns `None` where some page cannot be addressed.
pub fn launch_tables(plan: &RowGroupPlan, chunk_bases: &[u64], output_base: u64) -> (built: Option<
    LaunchTables,
>)
    ensures
        built is Some <==> forall|i: int|
            0 <= i < plan@.pages.len() ==> addressable(
                #[trigger] plan@.pages[i],
                chunk_bases@,
                output_base,
            ),
        built is Some <==> forall|i: int|
            0 <= i < plan@.pages.len() ==> {
                let page = #[trigger] plan@.pages[i];
                &&& page.chunk < chunk_bases@.len()
                &&& chunk_bases@[page.chunk as int] + page.offset_in_chunk <= u64::MAX
                &&& output_base + page.output_offset <= u64::MAX
            },
        built matches Some(tables) ==> {
            let pages = plan@.pages;
            &&& tables.compressed_ptrs@.len() == pages.len()
            &&& tables.compressed_sizes@.len() == pages.len()
            &&& tables.uncompressed_sizes@.len() == pages.len()
            &&& tables.output_ptrs@.len() == pages.len()
            &&& forall|i: int|
                0 <= i < pages.len() ==> {
                    &&& #[trigger] tables.compressed_ptrs@[i] == chunk_bases@[pages[i].chunk as int]
                        + pages[i].offset_in_chunk
                    &&& tables.compressed_sizes@[i] == pages[i].compressed_len
                    &&& tables.uncompressed_sizes@[i] == pages[i].uncompressed_len
                    &&& tables.output_ptrs@[i] == output_base + pages[i].output_offset
                }
        },
{
    let ghost pages = plan@.pages;
    let num_pages: usize = plan.pages.len();
    let mut compressed_ptrs: Vec<u64> = Vec::with_capacity(num_pages);
    let mut compressed_sizes: Vec<usize> = Vec::with_capacity(num_pages);
    let mut uncompressed_sizes: Vec<usize> = Vec::with_capacity(num_pages);
    let mut output_ptrs: Vec<u64> = Vec::with_capacity(num_pages);
    let mut i: usize = 0;
    while i < num_pages
        invariant
            pages == plan@.pages,
            num_pages == pages.len(),
            i <= num_pages,
            compressed_ptrs@.len() == i,
            compressed_sizes@.len() == i,
            uncompressed_sizes@.len() == i,
            output_ptrs@.len() == i,
            forall|k: int|
                0 <= k < i ==> addressable(#[trigger] pages[k], chunk_bases@, output_base),
            forall|k: int|
                0 <= k < i ==> {
                    &&& #[trigger] compressed_ptrs@[k] == chunk_bases@[pages[k].chunk as int]
                        + pages[k].offset_in_chunk
                    &&& compressed_sizes@[k] == pages[k].compressed_len
                    &&& uncompressed_sizes@[k] == pages[k].uncompressed_len
                    &&& output_ptrs@[k] == output_base + pages[k].output_offset
                },
        decreases num_pages - i,
    {
        let page: PlannedPage = plan.pages[i];
        assert(page == pages[i as int]);
        if page.chunk >= chunk_bases.len() {
            assert(!addressable(pages[i as int], chunk_bases@, output_base));
            return None;
        }
        let base: u64 = chunk_bases[page.chunk];
        let compressed_ptr: u64 = match base.checked_add(page.offset_in_chunk as u64) {
            Some(ptr) => ptr,
            None => {
                assert(!addressable(pages[i as int], chunk_bases@, output_base));
                return None;
            },
        };
        let output_ptr: u64 = match output_base.checked_add(page.output_offset as u64) {
            Some(ptr) => ptr,
            None => {
                assert(!addressable(pages[i as int], chunk_bases@, output_base));
                return None;
            },
        };
        compressed_ptrs.push(compressed_ptr);
        compressed_sizes.push(page.compressed_len);
        uncompressed_sizes.push(page.uncompressed_len);
        output_ptrs.push(output_ptr);
        i = i + 1;
    }
    Some(LaunchTables { compressed_ptrs, compressed_sizes, uncompressed_sizes, output_ptrs })
}

/// The device addresses of everything that a launch reads and writes.
#[derive(Clone, Copy, Debug, PartialEq, Eq, Structural)]
pub struct LaunchBuffers {
    /// Table of the addresses of compressed pages.
    pub compressed_ptrs: u64,
    /// Table of the lengths of compressed pages.
    pub compressed_sizes: u64,
    /// Table of the lengths of decompressed pages.
    pub uncompressed_sizes: u64,
    /// Table for the lengths that pages in fact decompressed to.
    pub actual_sizes: u64,
    /// The workspace.
    pub temp: u64,
    /// Size of the workspace in bytes.
    pub temp_size: usize,
    /// Table of the addresses of outputs.
    pub output_ptrs: u64,
    /// Table for the status of each page.
    pub statuses: u64,
    /// The stream to execute on.
    pub stream: u64,
}

/// A launch over a row group's pages, with the codec's default options.
#[derive(Clone, Copy, Debug)]
pub enum LaunchCall {
    /// A launch of the Snappy decompressor.
    Snappy(SnappyLaunch),
    /// A launch of the Zstd decompressor over so many pages.
    Zstd(LaunchBuffers, usize),
}

/// The launch that carries out a plan on buffers that hold its tables.
pub fn launch_call(plan: &RowGroupPlan, codec: GpuCodec, buffers: LaunchBuffers) -> (call:
    LaunchCall)
    ensures
        match (codec, call) {
            (GpuCodec::Snappy, LaunchCall::Snappy(launch)) => launch.runs(
                buffers.compressed_ptrs,
                buffers.compressed_sizes,
                buffers.uncompressed_sizes,
                buffers.actual_sizes,
                plan@.pages.len() as usize,
                buffers.temp,
                buffers.temp_size,
                buffers.output_ptrs,
                buffers.statuses,
                buffers.stream,
                default_opts(),
            ) && {
                &&& launch.device_compressed_ptrs == buffers.compressed_ptrs
                &&& launch.device_compressed_bytes == buffers.compressed_sizes
                &&& launch.device_uncompressed_bytes == buffers.uncompressed_sizes
                &&& launch.device_actual_uncompressed_bytes == buffers.actual_sizes
                &&& launch.num_chunks == plan.pages@.len()
                &&& launch.device_temp_ptr == buffers.temp
                &&& launch.temp_bytes == buffers.temp_size
                &&& launch.device_uncompressed_ptrs == buffers.output_ptrs
                &&& launch.device_statuses == buffers.statuses
                &&& launch.stream == buffers.stream
                &&& launch.opts.backend == 0
                &&& launch.opts.sort_before_hw_decompress == 0
            },
            (GpuCodec::Zstd, LaunchCall::Zstd(on, num_pages)) => on == buffers && num_pages
                == plan@.pages.len(),
            _ => false,
        },
{
    let num_pages: usize = plan.pages.len();
    match codec {
        GpuCodec::Snappy => LaunchCall::Snappy(
            decompress_async(
                buffers.compressed_ptrs,
                buffers.compressed_sizes,
                buffers.uncompressed_sizes,
                buffers.actual_sizes,
                num_pages,
                buffers.temp,
                buffers.temp_size,
                buffers.output_ptrs,
                buffers.statuses,
                buffers.stream,
            ),
        ),
        GpuCodec::Zstd => LaunchCall::Zstd(buffers, num_pages),
    }
}

/// A page that the device did not decompress.
#[derive(Clone, Copy, Debug, PartialEq, Eq, Structural)]
pub enum StatusError {
    /// The page failed.
    Failed {
        /// The page's index in its plan.
        page: usize,
        /// The status that nvcomp gave it.
        status: u32,
    },
    /// The page decompressed to another length than its header declares.
    WrongSize {
        /// The page's index in its plan.
        page: usize,
        /// The length it decompressed to.
        actual: usize,
        /// The length that the page header declares.
        expected: usize,
    },
}

impl StatusError {
    /// The page that the error is about.
    pub open spec fn page(self) -> usize {
        match self {
            StatusError::Failed { page, .. } => page,
            StatusError::WrongSize { page, .. } => page,
        }
    }
}

/// What the tables of a launch report of one page. Its status comes first.
pub open spec fn status_error(
    pages: Seq<PlannedPage>,
    actual_sizes: Seq<usize>,
    statuses: Seq<u32>,
    i: int,
) -> Option<StatusError> {
    if statuses[i] != NVCOMP_SUCCESS {
        Some(StatusError::Failed { page: i as usize, status: statuses[i] })
    } else if actual_sizes[i] != pages[i].uncompressed_len {
        Some(
            StatusError::WrongSize {
                page: i as usize,
                actual: actual_sizes[i],
                expected: pages[i].uncompressed_len,
            },
        )
    } else {
        None
    }
}

/// Checks the status and size tables of a launch, and fails on the first page that the device
/// did not decompress to its declared length.
pub fn check_statuses(plan: &RowGroupPlan, actual_sizes: &[usize], statuses: &[u32]) -> (checked:
    Result<(), StatusError>)
    requires
        plan@.pages.len() <= actual_sizes@.len(),
        plan@.pages.len() <= statuses@.len(),
    ensures
        match checked {
            Ok(_) => forall|i: int|
                0 <= i < plan@.pages.len() ==> (#[trigger] status_error(
                    plan@.pages,
                    actual_sizes@,
                    statuses@,
                    i,
                )) is None,
            Err(error) => {
                &&& error.page() < plan@.pages.len()
                &&& status_error(plan@.pages, actual_sizes@, statuses@, error.page() as int)
                    == Some(error)
                &&& forall|i: int|
                    0 <= i < error.page() ==> (#[trigger] status_error(
                        plan@.pages,
                        actual_sizes@,
                        statuses@,
                        i,
                    )) is None
            },
        },
{
    let mut index: usize = 0;
    while index < plan.pages.len()
        invariant
            index <= plan@.pages.len(),
            plan@.pages.len() <= actual_sizes@.len(),
            plan@.pages.len() <= statuses@.len(),
            forall|i: int|
                0 <= i < index ==> (#[trigger] status_error(
                    plan@.pages,
                    actual_sizes@,
                    statuses@,
                    i,
                )) is None,
        decreases plan@.pages.len() - index,
    {
        let expected: usize = plan.pages[index].uncompressed_len;
        let status: u32 = statuses[index];
        if status != NVCOMP_SUCCESS {
            return Err(StatusError::Failed { page: index, status });
        }
        let actual: usize = actual_sizes[index];
        if actual != expected {
            return Err(StatusError::WrongSize { page: index, actual, expected });
        }
        index = index + 1;
    }
    Ok(())
}

/// A page on which the device and the host decoder do not agree.
#[derive(Clone, Copy, Debug, PartialEq, Eq, Structural)]
pub enum VerifyError {
    /// The host decoder could not decompress the page.
    Host {
        /// The page's index in its plan.
        page: usize,
        /// Why it could not.
        error: HostDecodeError,
    },
    /// The device's output differs from that of the host decoder.
    Differs {
        /// The page's index in its plan.
        page: usize,
    },
}

impl VerifyError {
    /// The page that the error is about.
    pub open spec fn page(self) -> usize {
        match self {
            VerifyError::Host { page, .. } => page,
            VerifyError::Differs { page } => page,
        }
    }
}

/// Compares what the device made of a page with what the host decoder made of it.
pub fn compare_page(
    index: usize,
    host: Result<Vec<u8>, HostDecodeError>,
    device: &[u8],
) -> (compared: Result<(), VerifyError>)
    ensures
        match (host, compared) {
            (Ok(expected), Ok(_)) => device@ == expected@,
            (Ok(expected), Err(VerifyError::Differs { page })) => page == index && device@
                != expected@,
            (Err(error), Err(VerifyError::Host { page, error: reported })) => page == index
                && reported == error,
            _ => false,
        },
{
    let expected: Vec<u8> = match host {
        Ok(expected) => expected,
        Err(error) => return Err(VerifyError::Host { page: index, error }),
    };
    if device.len() != expected.len() {
        return Err(VerifyError::Differs { page: index });
    }
    let mut i: usize = 0;
    while i < device.len()
        invariant
            host matches Ok(bytes) && bytes == expected,
            device@.len() == expected@.len(),
            i <= device@.len(),
            forall|k: int| 0 <= k < i ==> device@[k] == expected@[k],
        decreases device@.len() - i,
    {
        if device[i] != expected[i] {
            assert(device@[i as int] != expected@[i as int]);
            return Err(VerifyError::Differs { page: index });
        }
        i = i + 1;
    }
    assert(device@ =~= expected@);
    Ok(())
}

/// Where in the file the compressed body of a planned page starts.
pub open spec fn file_start(plan: GroupPlan, i: int) -> int {
    plan.chunks[plan.pages[i].chunk as int].offset + plan.pages[i].offset_in_chunk
}

/// The compressed body of a planned page.
pub open spec fn compressed_body(plan: GroupPlan, file: Seq<u8>, i: int) -> Seq<u8> {
    file.subrange(
        file_start(plan, i),
        file_start(plan, i) + plan.pages[i].compressed_len as int,
    )
}

/// The device's output for a planned page.
pub open spec fn device_body(plan: GroupPlan, device_output: Seq<u8>, i: int) -> Seq<u8> {
    device_output.subrange(
        plan.pages[i].output_offset as int,
        plan.pages[i].output_offset + plan.pages[i].uncompressed_len as int,
    )
}

/// Whether a page lies within the file and the device's output, and the host can allocate
/// what decompressing it takes.
pub open spec fn page_comparable(
    plan: GroupPlan,
    file: Seq<u8>,
    codec: GpuCodec,
    device_output: Seq<u8>,
    i: int,
) -> bool {
    let page = plan.pages[i];
    &&& page.chunk < plan.chunks.len()
    &&& file_start(plan, i) + page.compressed_len <= file.len()
    &&& page.output_offset + page.uncompressed_len <= device_output.len()
    &&& codec.allocatable(compressed_body(plan, file, i), page.uncompressed_len)
}

/// Whether every page lies within the file and the device's output, and the host can allocate
/// what decompressing it takes.
pub open spec fn comparable(
    plan: GroupPlan,
    file: Seq<u8>,
    codec: GpuCodec,
    device_output: Seq<u8>,
) -> bool {
    forall|i: int|
        0 <= i < plan.pages.len() ==> #[trigger] page_comparable(
            plan,
            file,
            codec,
            device_output,
            i,
        )
}

/// Whether the device's output for a page is what the codec makes of its compressed body.
pub open spec fn page_verified(
    plan: GroupPlan,
    file: Seq<u8>,
    codec: GpuCodec,
    device_output: Seq<u8>,
    i: int,
) -> bool {
    codec.decoded(compressed_body(plan, file, i), plan.pages[i].uncompressed_len) == Some(
        device_body(plan, device_output, i),
    )
}

/// Whether every page that a comparison comes to can be compared. A comparison ends at the
/// first page that is not verified.
pub open spec fn verifiable(
    plan: GroupPlan,
    file: Seq<u8>,
    codec: GpuCodec,
    device_output: Seq<u8>,
) -> bool {
    forall|i: int|
        0 <= i < plan.pages.len() && (forall|j: int|
            0 <= j < i ==> #[trigger] page_verified(plan, file, codec, device_output, j))
            ==> #[trigger] page_comparable(plan, file, codec, device_output, i)
}

/// Whether a comparison with the host decoder went as the codec says: it succeeds exactly
/// where every page is verified, and else reports the first that is not, and why.
pub open spec fn verification(
    plan: GroupPlan,
    file: Seq<u8>,
    codec: GpuCodec,
    device_output: Seq<u8>,
    verified: Result<(), VerifyError>,
) -> bool {
    match verified {
        Ok(_) => forall|i: int|
            0 <= i < plan.pages.len() ==> #[trigger] page_verified(
                plan,
                file,
                codec,
                device_output,
                i,
            ),
        Err(error) => {
            let at = error.page() as int;
            let body = compressed_body(plan, file, at);
            let len = plan.pages[at].uncompressed_len;
            &&& at < plan.pages.len()
            &&& !page_verified(plan, file, codec, device_output, at)
            &&& forall|i: int|
                0 <= i < at ==> #[trigger] page_verified(plan, file, codec, device_output, i)
            &&& match error {
                VerifyError::Host { error, .. } => codec.host_decodes(body, len, Err(error)),
                VerifyError::Differs { .. } => codec.decoded(body, len) matches Some(full)
                    && full.len() == len,
            }
        },
    }
}

/// Decides whether a page can be compared with the host decoder.
fn can_compare_page(
    plan: &RowGroupPlan,
    index: usize,
    file_bytes: &[u8],
    codec: GpuCodec,
    device_output: &[u8],
) -> (can: bool)
    requires
        index < plan@.pages.len(),
    ensures
        can == page_comparable(plan@, file_bytes@, codec, device_output@, index as int),
{
    let page: PlannedPage = plan.pages[index];
    if page.chunk >= plan.chunks.len() {
        return false;
    }
    let base: u64 = plan.chunks[page.chunk].offset;
    let file_len: usize = file_bytes.len();
    if base > file_len as u64 {
        return false;
    }
    let room: usize = file_len - base as usize;
    if page.offset_in_chunk > room || page.compressed_len > room - page.offset_in_chunk {
        return false;
    }
    if page.output_offset > device_output.len() || page.uncompressed_len > device_output.len()
        - page.output_offset {
        return false;
    }
    let start: usize = base as usize + page.offset_in_chunk;
    let compressed = slice_subrange(file_bytes, start, start + page.compressed_len);
    codec.can_decompress_host(compressed, page.uncompressed_len)
}

/// Compares every page that the device decompressed with the host decoder's output for the
/// same bytes, and fails on the first that differs.
///
/// Returns `None` on coming to a page that does not lie within the file and the output, or
/// that the host cannot allocate.
pub fn verify_against_host(
    plan: &RowGroupPlan,
    file_bytes: &[u8],
    codec: GpuCodec,
    device_output: &[u8],
) -> (verified: Option<Result<(), VerifyError>>)
    ensures
        verified is Some <==> verifiable(plan@, file_bytes@, codec, device_output@),
        verified matches Some(result) ==> verification(
            plan@,
            file_bytes@,
            codec,
            device_output@,
            result,
        ),
        verified matches Some(Ok(_)) ==> forall|i: int|
            0 <= i < plan.pages@.len() ==> {
                let page = #[trigger] plan.pages@[i];
                let start = plan.chunks@[page.chunk as int].offset + page.offset_in_chunk;
                let body = file_bytes@.subrange(start, start + page.compressed_len);
                let output = device_output@.subrange(
                    page.output_offset as int,
                    page.output_offset + page.uncompressed_len,
                );
                &&& page.output_offset + page.uncompressed_len <= device_output@.len()
                &&& codec is Snappy ==> snappy_decoded(body) == Some(output)
                &&& codec is Zstd ==> zstd_decoded(body, zeros(page.uncompressed_len as nat))
                    == Some(output)
            },
{
    let ghost group = plan@;
    let ghost file = file_bytes@;
    let ghost output = device_output@;
    let mut index: usize = 0;
    while index < plan.pages.len()
        invariant
            group == plan@,
            file == file_bytes@,
            output == device_output@,
            index <= group.pages.len(),
            forall|i: int|
                0 <= i < index ==> #[trigger] page_comparable(group, file, codec, output, i),
            forall|i: int|
                0 <= i < index ==> #[trigger] page_verified(group, file, codec, output, i),
        decreases group.pages.len() - index,
    {
        let page: PlannedPage = plan.pages[index];
        if !can_compare_page(plan, index, file_bytes, codec, device_output) {
            assert(!page_comparable(group, file, codec, output, index as int));
            return None;
        }
        let file_len: usize = file_bytes.len();
        let output_len: usize = device_output.len();
        let start: usize = plan.chunks[page.chunk].offset as usize + page.offset_in_chunk;
        let compressed = slice_subrange(file_bytes, start, start + page.compressed_len);
        let host: Result<Vec<u8>, HostDecodeError> = codec.decompress_host(
            compressed,
            page.uncompressed_len,
        );
        let actual = slice_subrange(
            device_output,
            page.output_offset,
            page.output_offset + page.uncompressed_len,
        );
        assert(compressed@ == compressed_body(group, file, index as int));
        assert(actual@ == device_body(group, output, index as int));
        match compare_page(index, host, actual) {
            Ok(_) => {},
            Err(error) => {
                assert(!page_verified(group, file, codec, output, index as int));
                return Some(Err(error));
            },
        }
        assert(page_verified(group, file, codec, output, index as int));
        index = index + 1;
    }
    proof {
        assert forall|i: int| 0 <= i < plan.pages@.len() implies {
            let page = #[trigger] plan.pages@[i];
            let start = plan.chunks@[page.chunk as int].offset + page.offset_in_chunk;
            let body = file_bytes@.subrange(start, start + page.compressed_len);
            let made = device_output@.subrange(
                page.output_offset as int,
                page.output_offset + page.uncompressed_len,
            );
            &&& page.output_offset + page.uncompressed_len <= device_output@.len()
            &&& codec is Snappy ==> snappy_decoded(body) == Some(made)
            &&& codec is Zstd ==> zstd_decoded(body, zeros(page.uncompressed_len as nat)) == Some(
                made,
            )
        } by {
            assert(page_comparable(group, file, codec, output, i));
            assert(page_verified(group, file, codec, output, i));
        }
    }
    Some(Ok(()))
}

/// A launch planned from a scan can be compared with the host decoder, whatever the device
/// made of it: its pages lie within the file and within an output of the planned length.
pub proof fn law_scanned_plan_is_comparable(
    file: Seq<u8>,
    columns: Seq<ByteRange>,
    codec: GpuCodec,
    alignment: AlignmentRequirements,
    device_output: Seq<u8>,
)
    requires
        file.len() <= usize::MAX,
        columns.len() <= usize::MAX,
        row_group_pages(file, columns) is Ok,
        group_fits(row_group_pages(file, columns)->Ok_0, codec, alignment),
        group_plan(row_group_pages(file, columns)->Ok_0, codec, alignment) is Ok,
        ({
            let plan = group_plan(row_group_pages(file, columns)->Ok_0, codec, alignment)->Ok_0;
            &&& device_output.len() == plan.output_len
            &&& codec is Snappy ==> forall|i: int|
                0 <= i < plan.pages.len() ==> #[trigger] snappy_len_allocatable(
                    compressed_body(plan, file, i),
                )
        }),
    ensures
        comparable(
            group_plan(row_group_pages(file, columns)->Ok_0, codec, alignment)->Ok_0,
            file,
            codec,
            device_output,
        ),
        verifiable(
            group_plan(row_group_pages(file, columns)->Ok_0, codec, alignment)->Ok_0,
            file,
            codec,
            device_output,
        ),
{
    let f = |range: ByteRange| chunk_pages(file, range);
    let chunks = row_group_pages(file, columns)->Ok_0;
    let plan = group_plan(chunks, codec, alignment)->Ok_0;
    lemma_collect_ok(columns, f);
    assert forall|i: int| 0 <= i < chunks.len() implies #[trigger] chunks[i].offset + chunks[i].len
        <= file.len() && in_order(
        chunks[i].pages,
        chunks[i].offset as nat,
        (chunks[i].offset + chunks[i].len) as nat,
    ) && sizes_fit(chunks[i].pages) by {
        assert(f(columns[i]) == Ok::<ChunkPages, ScanError>(chunks[i]));
        law_bodies_lie_in_their_chunk(file, columns[i]);
    }
    assert(chunks_hold_their_pages(chunks));
    law_plan_reads_staged_bytes(chunks, codec, alignment);
    law_plan_lays_pages_out(chunks, codec, alignment);
    assert forall|i: int| 0 <= i < plan.pages.len() implies #[trigger] page_comparable(
        plan,
        file,
        codec,
        device_output,
        i,
    ) by {
        let page = plan.pages[i];
        assert(page.chunk < plan.chunks.len());
        law_plan_takes_pages_from_their_chunks(chunks, codec, alignment, i);
        assert(page.uncompressed_len <= i32::MAX);
        assert(codec is Snappy ==> snappy_len_allocatable(compressed_body(plan, file, i)));
        assert(chunks[page.chunk as int].offset + chunks[page.chunk as int].len <= file.len());
    }
}

/// Where a comparison succeeds, every byte that the device put out for a page is the byte that
/// the host decoder makes, at the same place, of the page's bytes in the file.
pub proof fn law_verified_bytes_are_the_hosts(
    plan: GroupPlan,
    file: Seq<u8>,
    codec: GpuCodec,
    device_output: Seq<u8>,
    i: int,
    k: int,
)
    requires
        comparable(plan, file, codec, device_output),
        verification(plan, file, codec, device_output, Ok(())),
        0 <= i < plan.pages.len(),
        0 <= k < plan.pages[i].uncompressed_len,
    ensures
        ({
            let page = plan.pages[i];
            let start = plan.chunks[page.chunk as int].offset + page.offset_in_chunk;
            let body = file.subrange(start, start + page.compressed_len);
            let byte = device_output[page.output_offset + k];
            &&& codec is Snappy ==> (snappy_decoded(body) matches Some(full) && full.len()
                == page.uncompressed_len && full[k] == byte)
            &&& codec is Zstd ==> (zstd_decoded(body, zeros(page.uncompressed_len as nat)) matches
                Some(full) && full.len() == page.uncompressed_len && full[k] == byte)
        }),
{
    assert(page_comparable(plan, file, codec, device_output, i));
    assert(page_verified(plan, file, codec, device_output, i));
}

/// Whether the device's output for a page is, byte for byte, what the host decoder makes of the
/// page's bytes in the file.
pub open spec fn host_makes(
    plan: GroupPlan,
    file: Seq<u8>,
    codec: GpuCodec,
    device_output: Seq<u8>,
    i: int,
) -> bool {
    let page = plan.pages[i];
    let start = plan.chunks[page.chunk as int].offset + page.offset_in_chunk;
    let body = file.subrange(start, start + page.compressed_len);
    let output = device_output.subrange(
        page.output_offset as int,
        page.output_offset + page.uncompressed_len,
    );
    match codec {
        GpuCodec::Snappy => snappy_decoded(body) == Some(output),
        GpuCodec::Zstd => zstd_decoded(body, zeros(page.uncompressed_len as nat)) == Some(output),
    }
}

/// A comparison succeeds exactly where the host decoder makes of every page what the device
/// put out for it; else it names the first page of which it does not.
pub proof fn law_comparison_names_the_first_difference(
    plan: GroupPlan,
    file: Seq<u8>,
    codec: GpuCodec,
    device_output: Seq<u8>,
    verified: Result<(), VerifyError>,
)
    requires
        verification(plan, file, codec, device_output, verified),
    ensures
        verified is Ok <==> forall|i: int|
            0 <= i < plan.pages.len() ==> #[trigger] host_makes(
                plan,
                file,
                codec,
                device_output,
                i,
            ),
        verified matches Err(error) ==> {
            let at = match error {
                VerifyError::Host { page, .. } => page,
                VerifyError::Differs { page } => page,
            };
            &&& at < plan.pages.len()
            &&& !host_makes(plan, file, codec, device_output, at as int)
            &&& forall|i: int|
                0 <= i < at ==> #[trigger] host_makes(plan, file, codec, device_output, i)
        },
{
    assert forall|i: int| 0 <= i < plan.pages.len() implies #[trigger] host_makes(
        plan,
        file,
        codec,
        device_output,
        i,
    ) == page_verified(plan, file, codec, device_output, i) by {}
    match verified {
        Ok(_) => {
            assert forall|i: int| 0 <= i < plan.pages.len() implies #[trigger] host_makes(
                plan,
                file,
                codec,
                device_output,
                i,
            ) by {
                assert(page_verified(plan, file, codec, device_output, i));
            }
        },
        Err(error) => {
            let at = error.page() as int;
            assert(!host_makes(plan, file, codec, device_output, at));
            assert forall|i: int| 0 <= i < at implies #[trigger] host_makes(
                plan,
                file,
                codec,
                device_output,
                i,
            ) by {
                assert(page_verified(plan, file, codec, device_output, i));
            }
        },
    }
}

/// A page that differs from what the host decoder makes of it differs in some byte, and is not
/// reported as one that the host rejects.
pub proof fn law_differing_page_differs_in_a_byte(
    plan: GroupPlan,
    file: Seq<u8>,
    codec: GpuCodec,
    device_output: Seq<u8>,
    page: usize,
)
    requires
        comparable(plan, file, codec, device_output),
        verification(
            plan,
            file,
            codec,
            device_output,
            Err(VerifyError::Differs { page }),
        ),
    ensures
        codec.decoded(
            compressed_body(plan, file, page as int),
            plan.pages[page as int].uncompressed_len,
        ) matches Some(full) && full.len() == plan.pages[page as int].uncompressed_len && exists|
            k: int,
        |
            0 <= k < full.len() && #[trigger] full[k]
                != device_output[plan.pages[page as int].output_offset + k],
{
    let i = page as int;
    assert(page_comparable(plan, file, codec, device_output, i));
    let full = codec.decoded(
        compressed_body(plan, file, i),
        plan.pages[i].uncompressed_len,
    )->Some_0;
    let ours = device_body(plan, device_output, i);
    if forall|k: int|
        0 <= k < full.len() ==> #[trigger] full[k] == device_output[plan.pages[i].output_offset
            + k] {
        assert(full =~= ours);
    }
}

/// A page can be compared where its bytes lie in the file, its output lies in the device's, and
/// the host can allocate what it takes; where all pages can be the comparison can be made.
pub proof fn law_pages_in_reach_can_be_compared(
    plan: GroupPlan,
    file: Seq<u8>,
    codec: GpuCodec,
    device_output: Seq<u8>,
)
    requires
        forall|i: int|
            0 <= i < plan.pages.len() ==> {
                let page = #[trigger] plan.pages[i];
                let start = plan.chunks[page.chunk as int].offset + page.offset_in_chunk;
                &&& page.chunk < plan.chunks.len()
                &&& start + page.compressed_len <= file.len()
                &&& page.output_offset + page.uncompressed_len <= device_output.len()
                &&& page.uncompressed_len <= isize::MAX
                &&& codec is Snappy ==> snappy_len_allocatable(
                    file.subrange(start, start + page.compressed_len),
                )
            },
    ensures
        comparable(plan, file, codec, device_output),
        verifiable(plan, file, codec, device_output),
{
    assert forall|i: int| 0 <= i < plan.pages.len() implies #[trigger] page_comparable(
        plan,
        file,
        codec,
        device_output,
        i,
    ) by {
        let page = plan.pages[i];
    }
}

/// A page is reported exactly where its status is not zero, with that status, or else where its
/// size is not the one that its header declares, with both sizes; and always by its own number.
pub proof fn law_page_is_reported_by_its_status_and_size(
    pages: Seq<PlannedPage>,
    actual_sizes: Seq<usize>,
    statuses: Seq<u32>,
    i: int,
)
    requires
        0 <= i < pages.len() <= usize::MAX,
    ensures
        match status_error(pages, actual_sizes, statuses, i) {
            None => statuses[i] == 0 && actual_sizes[i] == pages[i].uncompressed_len,
            Some(StatusError::Failed { page, status }) => page == i && status == statuses[i]
                && status != 0,
            Some(StatusError::WrongSize { page, actual, expected }) => page == i && statuses[i] == 0
                && actual == actual_sizes[i] && expected == pages[i].uncompressed_len && actual
                != expected,
        },
        status_error(pages, actual_sizes, statuses, i) matches Some(error) ==> error.page() == i,
{
}

} // verus!
