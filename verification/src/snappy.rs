//! Calls of nvcomp's batched Snappy decompression.
//!
//! Snappy is the default Parquet page codec, and the fastest of those that nvcomp implements
//! on the device. A call is described here as a value, for whoever holds the library to
//! make; what it returned is read here again.

use crate::backend::{AlignmentRequirements, DecompressBackend};
use crate::nvcomp::{NvcompAlignmentRequirements, NvcompError, Reply};
use vstd::prelude::*;

verus! {

/// The largest compressed chunk that the Snappy decompressor accepts, in bytes.
pub const MAX_COMPRESSED_CHUNK_SIZE: usize = 0x7fff_ffff;

/// Options for batched Snappy decompression.
#[derive(Debug, Clone, Copy, PartialEq, Eq, Structural)]
pub struct SnappyDecompressOpts {
    /// Which nvcomp backend performs the decompression.
    pub backend: DecompressBackend,
    /// Sort chunks by size before submitting them to the hardware decompression engine.
    ///
    /// Only used when `backend` selects the hardware engine.
    pub sort_before_hw_decompress: bool,
}

/// The options in the layout of nvcomp's C interface.
#[derive(Debug, Clone, Copy)]
pub struct NvcompSnappyDecompressOpts {
    /// The number of the backend.
    pub backend: u32,
    /// Whether chunks are sorted: one or zero.
    pub sort_before_hw_decompress: i32,
    /// Always zero.
    pub reserved: [i8; 56],
}

/// The default options.
pub open spec fn default_opts() -> SnappyDecompressOpts {
    SnappyDecompressOpts { backend: DecompressBackend::Default, sort_before_hw_decompress: false }
}

impl Default for SnappyDecompressOpts {
    /// The backend of nvcomp's own choice, and chunks in their order.
    fn default() -> (opts: Self)
        ensures
            opts == default_opts(),
            opts.backend is Default,
            !opts.sort_before_hw_decompress,
    {
        SnappyDecompressOpts {
            backend: DecompressBackend::default(),
            sort_before_hw_decompress: false,
        }
    }
}

impl SnappyDecompressOpts {
    /// Whether `raw` is these options in nvcomp's layout.
    pub open spec fn encoded_by(self, raw: NvcompSnappyDecompressOpts) -> bool {
        &&& raw.backend == self.backend.code()
        &&& raw.sort_before_hw_decompress == if self.sort_before_hw_decompress {
            1i32
        } else {
            0i32
        }
        &&& forall|i: int| 0 <= i < 56 ==> #[trigger] raw.reserved@[i] == 0
    }

    /// The options in nvcomp's layout.
    pub fn to_nvcomp(self) -> (raw: NvcompSnappyDecompressOpts)
        ensures
            self.encoded_by(raw),
            self.backend is Default <==> raw.backend == 0,
            self.backend is Hardware <==> raw.backend == 1,
            self.backend is Cuda <==> raw.backend == 2,
            self.sort_before_hw_decompress <==> raw.sort_before_hw_decompress == 1,
            !self.sort_before_hw_decompress <==> raw.sort_before_hw_decompress == 0,
            forall|i: int| 0 <= i < 56 ==> #[trigger] raw.reserved@[i] == 0,
    {
        NvcompSnappyDecompressOpts {
            backend: self.backend.to_nvcomp(),
            sort_before_hw_decompress: if self.sort_before_hw_decompress {
                1
            } else {
                0
            },
            reserved: [0;56],
        }
    }
}

/// A query for the size of the temporary buffer of a batched decompression.
#[derive(Debug, Clone, Copy)]
pub struct TempSizeQuery {
    /// Number of compressed chunks to decompress.
    pub num_chunks: usize,
    /// Maximum uncompressed size of any single chunk.
    pub max_uncompressed_chunk_bytes: usize,
    /// Decompression options.
    pub opts: NvcompSnappyDecompressOpts,
    /// Total uncompressed size across all chunks.
    pub max_total_uncompressed_bytes: usize,
}

impl TempSizeQuery {
    /// Whether the query asks for this batch under these options.
    pub open spec fn asks(
        self,
        num_chunks: usize,
        max_uncompressed_chunk_bytes: usize,
        max_total_uncompressed_bytes: usize,
        opts: SnappyDecompressOpts,
    ) -> bool {
        &&& self.num_chunks == num_chunks
        &&& self.max_uncompressed_chunk_bytes == max_uncompressed_chunk_bytes
        &&& self.max_total_uncompressed_bytes == max_total_uncompressed_bytes
        &&& opts.encoded_by(self.opts)
    }

    /// Reads the reply to the query: the required size in bytes of the temporary buffer.
    pub fn finish(self, reply: Reply<usize>) -> (temp_bytes: Result<usize, NvcompError>)
        ensures
            temp_bytes == reply.result(),
            match (reply, temp_bytes) {
                (Reply::Unavailable, Err(NvcompError::Unavailable)) => true,
                (Reply::Returned { status, value }, Ok(kept)) => status == 0 && kept == value,
                (Reply::Returned { status, .. }, Err(NvcompError::Status(reported))) => status != 0
                    && reported == status,
                _ => false,
            },
    {
        reply.check()
    }
}

/// Asks for the temporary buffer size of batched Snappy decompression.
pub fn get_decompress_temp_size(
    num_chunks: usize,
    max_uncompressed_chunk_bytes: usize,
    max_total_uncompressed_bytes: usize,
) -> (query: TempSizeQuery)
    ensures
        query.asks(
            num_chunks,
            max_uncompressed_chunk_bytes,
            max_total_uncompressed_bytes,
            default_opts(),
        ),
        query.num_chunks == num_chunks,
        query.max_uncompressed_chunk_bytes == max_uncompressed_chunk_bytes,
        query.max_total_uncompressed_bytes == max_total_uncompressed_bytes,
        query.opts.backend == 0,
        query.opts.sort_before_hw_decompress == 0,
{
    get_decompress_temp_size_with_opts(
        num_chunks,
        max_uncompressed_chunk_bytes,
        max_total_uncompressed_bytes,
        SnappyDecompressOpts::default(),
    )
}

/// Asks for the temporary buffer size of batched Snappy decompression with custom options.
pub fn get_decompress_temp_size_with_opts(
    num_chunks: usize,
    max_uncompressed_chunk_bytes: usize,
    max_total_uncompressed_bytes: usize,
    opts: SnappyDecompressOpts,
) -> (query: TempSizeQuery)
    ensures
        query.asks(num_chunks, max_uncompressed_chunk_bytes, max_total_uncompressed_bytes, opts),
        query.num_chunks == num_chunks,
        query.max_uncompressed_chunk_bytes == max_uncompressed_chunk_bytes,
        query.max_total_uncompressed_bytes == max_total_uncompressed_bytes,
        opts.backend is Default <==> query.opts.backend == 0,
        opts.backend is Hardware <==> query.opts.backend == 1,
        opts.backend is Cuda <==> query.opts.backend == 2,
        opts.sort_before_hw_decompress <==> query.opts.sort_before_hw_decompress == 1,
        !opts.sort_before_hw_decompress <==> query.opts.sort_before_hw_decompress == 0,
{
    TempSizeQuery {
        num_chunks,
        max_uncompressed_chunk_bytes,
        opts: opts.to_nvcomp(),
        max_total_uncompressed_bytes,
    }
}

/// A query for the buffer alignments of batched decompression.
#[derive(Debug, Clone, Copy)]
pub struct AlignmentQuery {
    /// Decompression options.
    pub opts: NvcompSnappyDecompressOpts,
}

/// The alignments as nvcomp reports them, as the library's own.
pub open spec fn requirements_of(
    reported: Result<NvcompAlignmentRequirements, NvcompError>,
) -> Result<AlignmentRequirements, NvcompError> {
    match reported {
        Ok(value) => Ok(
            AlignmentRequirements { input: value.input, output: value.output, temp: value.temp },
        ),
        Err(error) => Err(error),
    }
}

impl AlignmentQuery {
    /// Reads the reply to the query: the minimum buffer alignments.
    pub fn finish(self, reply: Reply<NvcompAlignmentRequirements>) -> (requirements: Result<
        AlignmentRequirements,
        NvcompError,
    >)
        ensures
            requirements == requirements_of(reply.result()),
            match (reply, requirements) {
                (Reply::Unavailable, Err(NvcompError::Unavailable)) => true,
                (Reply::Returned { status, value }, Ok(kept)) => status == 0 && kept.input
                    == value.input && kept.output == value.output && kept.temp == value.temp,
                (Reply::Returned { status, .. }, Err(NvcompError::Status(reported))) => status != 0
                    && reported == status,
                _ => false,
            },
    {
        match reply.check() {
            Ok(reported) => Ok(AlignmentRequirements::from(reported)),
            Err(error) => Err(error),
        }
    }
}

/// Asks for the minimum buffer alignments of batched Snappy decompression.
pub fn decompress_alignment_requirements(opts: SnappyDecompressOpts) -> (query: AlignmentQuery)
    ensures
        opts.encoded_by(query.opts),
        opts.backend is Default <==> query.opts.backend == 0,
        opts.backend is Hardware <==> query.opts.backend == 1,
        opts.backend is Cuda <==> query.opts.backend == 2,
        opts.sort_before_hw_decompress <==> query.opts.sort_before_hw_decompress == 1,
        !opts.sort_before_hw_decompress <==> query.opts.sort_before_hw_decompress == 0,
{
    AlignmentQuery { opts: opts.to_nvcomp() }
}

/// A launch of batched Snappy decompression. Every address is one of device memory.
#[derive(Debug, Clone, Copy)]
pub struct SnappyLaunch {
    /// Address of the array of addresses of compressed chunks.
    pub device_compressed_ptrs: u64,
    /// Address of the array of compressed chunk sizes.
    pub device_compressed_bytes: u64,
    /// Address of the array of expected uncompressed sizes.
    pub device_uncompressed_bytes: u64,
    /// Address of the array for actual uncompressed sizes.
    pub device_actual_uncompressed_bytes: u64,
    /// Number of chunks to decompress.
    pub num_chunks: usize,
    /// Address of the temporary workspace.
    pub device_temp_ptr: u64,
    /// Size of the temporary workspace in bytes.
    pub temp_bytes: usize,
    /// Address of the array of addresses of output buffers.
    pub device_uncompressed_ptrs: u64,
    /// Decompression options.
    pub opts: NvcompSnappyDecompressOpts,
    /// Address of the array for the status of each chunk.
    pub device_statuses: u64,
    /// The CUDA stream to execute on.
    pub stream: u64,
}

impl SnappyLaunch {
    /// Whether the launch runs on these arguments under these options.
    pub open spec fn runs(
        self,
        device_compressed_ptrs: u64,
        device_compressed_bytes: u64,
        device_uncompressed_bytes: u64,
        device_actual_uncompressed_bytes: u64,
        num_chunks: usize,
        device_temp_ptr: u64,
        temp_bytes: usize,
        device_uncompressed_ptrs: u64,
        device_statuses: u64,
        stream: u64,
        opts: SnappyDecompressOpts,
    ) -> bool {
        &&& self.device_compressed_ptrs == device_compressed_ptrs
        &&& self.device_compressed_bytes == device_compressed_bytes
        &&& self.device_uncompressed_bytes == device_uncompressed_bytes
        &&& self.device_actual_uncompressed_bytes == device_actual_uncompressed_bytes
        &&& self.num_chunks == num_chunks
        &&& self.device_temp_ptr == device_temp_ptr
        &&& self.temp_bytes == temp_bytes
        &&& self.device_uncompressed_ptrs == device_uncompressed_ptrs
        &&& self.device_statuses == device_statuses
        &&& self.stream == stream
        &&& opts.encoded_by(self.opts)
    }

    /// Reads the reply to the launch, which says whether it was enqueued.
    pub fn finish(self, reply: Reply<()>) -> (launched: Result<(), NvcompError>)
        ensures
            launched == reply.result(),
            match (reply, launched) {
                (Reply::Unavailable, Err(NvcompError::Unavailable)) => true,
                (Reply::Returned { status, value }, Ok(kept)) => status == 0 && kept == value,
                (Reply::Returned { status, .. }, Err(NvcompError::Status(reported))) => status != 0
                    && reported == status,
                _ => false,
            },
    {
        reply.check()
    }
}

/// Launches batched Snappy decompression on the device.
///
/// It decompresses many raw Snappy blocks in parallel, in the order of `stream`. The
/// addresses must be those of live device memory: each metadata array of `num_chunks`
/// entries, each output buffer of the corresponding uncompressed size, and a workspace of
/// `temp_bytes`.
pub fn decompress_async(
    device_compressed_ptrs: u64,
    device_compressed_bytes: u64,
    device_uncompressed_bytes: u64,
    device_actual_uncompressed_bytes: u64,
    num_chunks: usize,
    device_temp_ptr: u64,
    temp_bytes: usize,
    device_uncompressed_ptrs: u64,
    device_statuses: u64,
    stream: u64,
) -> (launch: SnappyLaunch)
    ensures
        launch.runs(
            device_compressed_ptrs,
            device_compressed_bytes,
            device_uncompressed_bytes,
            device_actual_uncompressed_bytes,
            num_chunks,
            device_temp_ptr,
            temp_bytes,
            device_uncompressed_ptrs,
            device_statuses,
            stream,
            default_opts(),
        ),
        launch.device_compressed_ptrs == device_compressed_ptrs,
        launch.device_compressed_bytes == device_compressed_bytes,
        launch.device_uncompressed_bytes == device_uncompressed_bytes,
        launch.device_actual_uncompressed_bytes == device_actual_uncompressed_bytes,
        launch.num_chunks == num_chunks,
        launch.device_temp_ptr == device_temp_ptr,
        launch.temp_bytes == temp_bytes,
        launch.device_uncompressed_ptrs == device_uncompressed_ptrs,
        launch.device_statuses == device_statuses,
        launch.stream == stream,
        launch.opts.backend == 0,
        launch.opts.sort_before_hw_decompress == 0,
{
    decompress_async_with_opts(
        device_compressed_ptrs,
        device_compressed_bytes,
        device_uncompressed_bytes,
        device_actual_uncompressed_bytes,
        num_chunks,
        device_temp_ptr,
        temp_bytes,
        device_uncompressed_ptrs,
        device_statuses,
        stream,
        SnappyDecompressOpts::default(),
    )
}

/// Launches batched Snappy decompression on the device with custom options, on the same
/// terms as [`decompress_async`].
pub fn decompress_async_with_opts(
    device_compressed_ptrs: u64,
    device_compressed_bytes: u64,
    device_uncompressed_bytes: u64,
    device_actual_uncompressed_bytes: u64,
    num_chunks: usize,
    device_temp_ptr: u64,
    temp_bytes: usize,
    device_uncompressed_ptrs: u64,
    device_statuses: u64,
    stream: u64,
    opts: SnappyDecompressOpts,
) -> (launch: SnappyLaunch)
    ensures
        launch.runs(
            device_compressed_ptrs,
            device_compressed_bytes,
            device_uncompressed_bytes,
            device_actual_uncompressed_bytes,
            num_chunks,
            device_temp_ptr,
            temp_bytes,
            device_uncompressed_ptrs,
            device_statuses,
            stream,
            opts,
        ),
        launch.device_compressed_ptrs == device_compressed_ptrs,
        launch.device_compressed_bytes == device_compressed_bytes,
        launch.device_uncompressed_bytes == device_uncompressed_bytes,
        launch.device_actual_uncompressed_bytes == device_actual_uncompressed_bytes,
        launch.num_chunks == num_chunks,
        launch.device_temp_ptr == device_temp_ptr,
        launch.temp_bytes == temp_bytes,
        launch.device_uncompressed_ptrs == device_uncompressed_ptrs,
        launch.device_statuses == device_statuses,
        launch.stream == stream,
        opts.backend is Default <==> launch.opts.backend == 0,
        opts.backend is Hardware <==> launch.opts.backend == 1,
        opts.backend is Cuda <==> launch.opts.backend == 2,
        opts.sort_before_hw_decompress <==> launch.opts.sort_before_hw_decompress == 1,
        !opts.sort_before_hw_decompress <==> launch.opts.sort_before_hw_decompress == 0,
{
    SnappyLaunch {
        device_compressed_ptrs,
        device_compressed_bytes,
        device_uncompressed_bytes,
        device_actual_uncompressed_bytes,
        num_chunks,
        device_temp_ptr,
        temp_bytes,
        device_uncompressed_ptrs,
        opts: opts.to_nvcomp(),
        device_statuses,
        stream,
    }
}

} // verus!
