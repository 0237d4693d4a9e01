//! The values that nvcomp's C interface takes and hands back, and how its replies are read.

use vstd::prelude::*;

verus! {

/// The status of a call that nvcomp carried out.
pub const NVCOMP_SUCCESS: u32 = 0;

/// nvcomp chooses the backend.
pub const NVCOMP_DECOMPRESS_BACKEND_DEFAULT: u32 = 0;

/// The hardware decompression engine.
pub const NVCOMP_DECOMPRESS_BACKEND_HARDWARE: u32 = 1;

/// CUDA kernels.
pub const NVCOMP_DECOMPRESS_BACKEND_CUDA: u32 = 2;

/// Buffer alignments, as nvcomp reports them.
#[derive(Clone, Copy, Debug, PartialEq, Eq, Structural)]
pub struct NvcompAlignmentRequirements {
    /// Minimum alignment of each compressed input chunk.
    pub input: usize,
    /// Minimum alignment of each decompressed output chunk.
    pub output: usize,
    /// Minimum alignment of the temporary workspace.
    pub temp: usize,
}

/// What came of a call into nvcomp.
#[derive(Debug, PartialEq, Eq)]
pub enum Reply<T> {
    /// The library could not be loaded, and no call was made.
    Unavailable,
    /// The call returned.
    Returned {
        /// The status it returned.
        status: u32,
        /// What it wrote to its output argument, which holds only if it succeeded.
        value: T,
    },
}

/// Why nvcomp did not do what it was asked.
#[derive(Clone, Copy, Debug, PartialEq, Eq, Structural)]
pub enum NvcompError {
    /// The library could not be loaded.
    Unavailable,
    /// The call failed with this status.
    Status(u32),
}

/// Fails on every status but success.
pub fn check_status(status: u32) -> (checked: Result<(), NvcompError>)
    ensures
        checked == if status == NVCOMP_SUCCESS {
            Ok(())
        } else {
            Err(NvcompError::Status(status))
        },
        checked is Ok <==> status == 0,
{
    if status == NVCOMP_SUCCESS {
        Ok(())
    } else {
        Err(NvcompError::Status(status))
    }
}

impl<T> Reply<T> {
    /// The value of a call that succeeded, or why there is none.
    pub open spec fn result(self) -> Result<T, NvcompError> {
        match self {
            Reply::Unavailable => Err(NvcompError::Unavailable),
            Reply::Returned { status, value } => if status == NVCOMP_SUCCESS {
                Ok(value)
            } else {
                Err(NvcompError::Status(status))
            },
        }
    }

    /// Reads a reply: the value of a call that succeeded, or why there is none.
    pub fn check(self) -> (checked: Result<T, NvcompError>)
        ensures
            checked == self.result(),
            match (self, checked) {
                (Reply::Unavailable, Err(NvcompError::Unavailable)) => true,
                (Reply::Returned { status, value }, Ok(kept)) => status == 0 && kept == value,
                (Reply::Returned { status, .. }, Err(NvcompError::Status(reported))) => status != 0
                    && reported == status,
                _ => false,
            },
    {
        match self {
            Reply::Unavailable => Err(NvcompError::Unavailable),
            Reply::Returned { status, value } => match check_status(status) {
                Ok(_) => Ok(value),
                Err(error) => Err(error),
            },
        }
    }
}

} // verus!
