//! Options and metadata shared by nvcomp's batched decompression calls.

use crate::nvcomp::{
    NvcompAlignmentRequirements, NVCOMP_DECOMPRESS_BACKEND_CUDA, NVCOMP_DECOMPRESS_BACKEND_DEFAULT,
    NVCOMP_DECOMPRESS_BACKEND_HARDWARE,
};
use vstd::prelude::*;

verus! {

/// Backend selection for nvcomp decompression.
#[derive(Debug, Clone, Copy, PartialEq, Eq, Structural)]
pub enum DecompressBackend {
    /// Let nvcomp select the best backend for the hardware.
    Default,
    /// Use the hardware decompression engine.
    Hardware,
    /// Use CUDA kernels.
    Cuda,
}

impl Default for DecompressBackend {
    /// nvcomp's own choice.
    fn default() -> (backend: Self)
        ensures
            backend == DecompressBackend::Default,
    {
        DecompressBackend::Default
    }
}

impl DecompressBackend {
    /// The number by which nvcomp knows the backend.
    pub open spec fn code(self) -> u32 {
        match self {
            DecompressBackend::Default => NVCOMP_DECOMPRESS_BACKEND_DEFAULT,
            DecompressBackend::Hardware => NVCOMP_DECOMPRESS_BACKEND_HARDWARE,
            DecompressBackend::Cuda => NVCOMP_DECOMPRESS_BACKEND_CUDA,
        }
    }

    /// The number by which nvcomp knows the backend.
    pub fn to_nvcomp(self) -> (code: u32)
        ensures
            code == self.code(),
            self is Default <==> code == 0,
            self is Hardware <==> code == 1,
            self is Cuda <==> code == 2,
    {
        match self {
            DecompressBackend::Default => NVCOMP_DECOMPRESS_BACKEND_DEFAULT,
            DecompressBackend::Hardware => NVCOMP_DECOMPRESS_BACKEND_HARDWARE,
            DecompressBackend::Cuda => NVCOMP_DECOMPRESS_BACKEND_CUDA,
        }
    }
}

/// Minimum buffer alignments required by an nvcomp algorithm.
///
/// Buffers passed to the batched decompression calls must satisfy these alignments.
/// Exceeding them may improve throughput.
#[derive(Debug, Clone, Copy, PartialEq, Eq, Structural)]
pub struct AlignmentRequirements {
    /// Minimum alignment of each compressed input chunk.
    pub input: usize,
    /// Minimum alignment of each decompressed output chunk.
    pub output: usize,
    /// Minimum alignment of the temporary workspace buffer.
    pub temp: usize,
}

impl From<NvcompAlignmentRequirements> for AlignmentRequirements {
    fn from(value: NvcompAlignmentRequirements) -> (requirements: Self) {
        AlignmentRequirements { input: value.input, output: value.output, temp: value.temp }
    }
}

impl vstd::std_specs::convert::FromSpecImpl<NvcompAlignmentRequirements> for AlignmentRequirements {
    open spec fn obeys_from_spec() -> bool {
        true
    }

    open spec fn from_spec(value: NvcompAlignmentRequirements) -> Self {
        AlignmentRequirements { input: value.input, output: value.output, temp: value.temp }
    }
}

/// Two backends are never known to nvcomp by one number.
pub proof fn law_backend_codes_differ(a: DecompressBackend, b: DecompressBackend)
    ensures
        a.code() == b.code() <==> a == b,
{
}

} // verus!
