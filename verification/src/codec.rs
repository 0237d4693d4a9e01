//! The page codecs that a device can decompress, and the host decoders to check it against.

use crate::compact::{varint, CompactReader};
use crate::written::{law_varint_reads_what_was_written, stand_at, varint_bytes};
use parquet::basic::{Compression, ZstdLevel};
use vstd::prelude::*;

verus! {

/// Parquet page codecs that can be decompressed on the device.
#[derive(Clone, Copy, Debug, PartialEq, Eq, Structural)]
pub enum GpuCodec {
    /// The Parquet default, and the codec with the highest device throughput.
    Snappy,
    /// A denser codec, at lower device throughput.
    Zstd,
}

impl Default for GpuCodec {
    /// Snappy.
    fn default() -> (codec: Self)
        ensures
            codec == GpuCodec::Snappy,
    {
        GpuCodec::Snappy
    }
}

/// `ZstdLevel::default` returns the level that `parquet` compresses with unless told
/// otherwise. Nothing is claimed of which level that is.
pub assume_specification[ <ZstdLevel as Default>::default ]() -> (level: ZstdLevel)
;

/// The errors of the Snappy decoder.
#[verifier::external_type_specification]
#[verifier::external_body]
pub struct ExSnapError(snap::Error);

/// The errors of the Zstd decoder.
#[verifier::external_type_specification]
#[verifier::external_body]
pub struct ExIoError(std::io::Error);

/// What the Snappy decoder makes of a block: the bytes it decompresses to, or `None` where
/// it is no Snappy block.
pub uninterp spec fn snappy_decoded(compressed: Seq<u8>) -> Option<Seq<u8>>;

/// What the Zstd decoder makes of a block, given a destination to write to: the bytes that it
/// writes to the front of it, or `None` where it refuses.
///
/// It refuses what is no Zstd block, and what finds too little room. How much room that is
/// depends on the block: some frames, those of old formats among them, need more than the
/// bytes that they decompress to.
pub uninterp spec fn zstd_decoded(compressed: Seq<u8>, destination: Seq<u8>) -> Option<Seq<u8>>;

/// Whether the host can allocate the length that a Snappy block starts with. The length is
/// a varint of at most five bytes and 32 bits, so a 64-bit host always can.
pub open spec fn snappy_len_allocatable(compressed: Seq<u8>) -> bool {
    let step = varint(compressed, 0);
    match step.outcome {
        Ok(len) => step.pos <= 5 && len <= u32::MAX ==> len <= isize::MAX,
        Err(_) => true,
    }
}

/// Calls `snap::raw::Decoder::decompress_vec`: it returns the bytes that the block
/// decompresses to, and fails where the block is none. It panics where the length that the
/// block starts with cannot be allocated, which the contract leaves out.
#[verifier::external_body]
fn snappy_decompress(compressed: &[u8]) -> (decompressed: Result<Vec<u8>, snap::Error>)
    requires
        snappy_len_allocatable(compressed@),
    ensures
        match decompressed {
            Ok(bytes) => snappy_decoded(compressed@) == Some(bytes@),
            Err(_) => snappy_decoded(compressed@) is None,
        },
{
    snap::raw::Decoder::new().decompress_vec(compressed)
}

/// Calls `zstd::bulk::decompress_to_buffer`: it decompresses the block to the front of the
/// buffer and returns how many bytes it wrote there, or fails. What it leaves behind those
/// bytes, and anywhere where it fails, is left unsaid. That the decoder finds memory for its
/// own state is taken for granted.
#[verifier::external_body]
fn zstd_decompress(compressed: &[u8], buffer: &mut Vec<u8>) -> (written: Result<
    usize,
    std::io::Error,
>)
    ensures
        final(buffer)@.len() == old(buffer)@.len(),
        match written {
            Ok(len) => len <= old(buffer)@.len() && zstd_decoded(compressed@, old(buffer)@)
                == Some(final(buffer)@.take(len as int)),
            Err(_) => zstd_decoded(compressed@, old(buffer)@) is None,
        },
{
    zstd::bulk::decompress_to_buffer(compressed, buffer.as_mut_slice())
}

/// So many zero bytes.
pub open spec fn zeros(len: nat) -> Seq<u8> {
    Seq::new(len, |i: int| 0u8)
}

/// Why a page body could not be decompressed on the host.
#[derive(Clone, Copy, Debug, PartialEq, Eq, Structural)]
pub enum HostDecodeError {
    /// The codec rejects the body.
    Rejected,
    /// The body decompresses to another length than its header declares.
    LengthMismatch {
        /// The length it decompresses to.
        actual: usize,
        /// The length that the page header declares.
        declared: usize,
    },
}

/// Holds a decompressed page body to the length that its header declares.
pub fn check_decoded_len(
    decoded: Result<Vec<u8>, HostDecodeError>,
    uncompressed_len: usize,
) -> (checked: Result<Vec<u8>, HostDecodeError>)
    ensures
        match (decoded, checked) {
            (Err(error), Err(reported)) => reported == error,
            (Ok(bytes), Ok(kept)) => kept == bytes && bytes@.len() == uncompressed_len,
            (Ok(bytes), Err(HostDecodeError::LengthMismatch { actual, declared })) => {
                actual == bytes@.len() && declared == uncompressed_len && actual != declared
            },
            _ => false,
        },
{
    match decoded {
        Err(error) => Err(error),
        Ok(bytes) => if bytes.len() == uncompressed_len {
            Ok(bytes)
        } else {
            Err(
                HostDecodeError::LengthMismatch { actual: bytes.len(), declared: uncompressed_len },
            )
        },
    }
}

impl GpuCodec {
    /// What the codec makes of a page body that is declared to decompress to `room` bytes.
    ///
    /// Zstd is given that much room and no more, so it refuses a body that needs more. Snappy
    /// makes its own room.
    pub open spec fn decoded(self, compressed: Seq<u8>, room: usize) -> Option<Seq<u8>> {
        match self {
            GpuCodec::Snappy => snappy_decoded(compressed),
            GpuCodec::Zstd => zstd_decoded(compressed, zeros(room as nat)),
        }
    }

    /// Whether the host can allocate what decompressing a page body takes.
    pub open spec fn allocatable(self, compressed: Seq<u8>, uncompressed_len: usize) -> bool {
        match self {
            GpuCodec::Snappy => snappy_len_allocatable(compressed),
            GpuCodec::Zstd => uncompressed_len <= isize::MAX,
        }
    }

    /// Whether `decompressed` is what decompressing a page body on the host gives: the bytes
    /// that the codec makes of it if they are as many as declared, else how many they are; or
    /// a rejection where the codec makes nothing of it.
    pub open spec fn host_decodes(
        self,
        compressed: Seq<u8>,
        uncompressed_len: usize,
        decompressed: Result<Vec<u8>, HostDecodeError>,
    ) -> bool {
        match (self.decoded(compressed, uncompressed_len), decompressed) {
            (Some(full), Ok(bytes)) => bytes@ == full && full.len() == uncompressed_len,
            (Some(full), Err(HostDecodeError::LengthMismatch { actual, declared })) => {
                actual == full.len() && declared == uncompressed_len && actual != declared
            },
            (None, Err(HostDecodeError::Rejected)) => true,
            _ => false,
        }
    }

    /// Whether this is the Parquet setting that the codec writes with: Snappy, or Zstd at
    /// the level that `ZstdLevel::default` returns.
    pub open spec fn writes_with(self, compression: Compression) -> bool {
        match (self, compression) {
            (GpuCodec::Snappy, Compression::SNAPPY) => true,
            (GpuCodec::Zstd, Compression::ZSTD(level)) => call_ensures(
                <ZstdLevel as Default>::default,
                (),
                level,
            ),
            _ => false,
        }
    }

    /// The Parquet compression setting for this codec, Zstd at its default level.
    pub fn to_parquet(self) -> (compression: Compression)
        ensures
            self.writes_with(compression),
            self is Snappy <==> compression is SNAPPY,
            self is Zstd <==> compression is ZSTD,
    {
        match self {
            GpuCodec::Snappy => Compression::SNAPPY,
            GpuCodec::Zstd => Compression::ZSTD(ZstdLevel::default()),
        }
    }

    /// Short lowercase name, used in measurement labels.
    pub fn name(self) -> (name: &'static str)
        ensures
            name@ == match self {
                GpuCodec::Snappy => "snappy"@,
                GpuCodec::Zstd => "zstd"@,
            },
    {
        match self {
            GpuCodec::Snappy => "snappy",
            GpuCodec::Zstd => "zstd",
        }
    }

    /// Whether a column chunk with this setting was written by `self`, at whatever level.
    pub open spec fn wrote(self, compression: Compression) -> bool {
        match self {
            GpuCodec::Snappy => compression is SNAPPY,
            GpuCodec::Zstd => compression is ZSTD,
        }
    }

    /// Whether a column chunk's codec matches this one, whatever its level.
    pub fn matches(self, compression: Compression) -> (matching: bool)
        ensures
            matching == self.wrote(compression),
            matching <==> (self is Snappy && compression is SNAPPY) || (self is Zstd && compression
                is ZSTD),
    {
        match (self, compression) {
            (GpuCodec::Snappy, Compression::SNAPPY) => true,
            (GpuCodec::Zstd, Compression::ZSTD(_)) => true,
            _ => false,
        }
    }

    /// Decides whether the host can allocate what decompressing a page body takes.
    pub fn can_decompress_host(self, compressed: &[u8], uncompressed_len: usize) -> (can: bool)
        ensures
            can == self.allocatable(compressed@, uncompressed_len),
            self is Zstd ==> (can <==> uncompressed_len <= isize::MAX),
    {
        match self {
            GpuCodec::Snappy => {
                let mut reader = CompactReader::new(compressed);
                match reader.read_varint() {
                    Ok(len) => reader.pos > 5 || len > u32::MAX as u64 || len
                        <= isize::MAX as u64,
                    Err(_) => true,
                }
            },
            GpuCodec::Zstd => uncompressed_len <= isize::MAX as usize,
        }
    }

    /// Decompresses a single page body on the host, for cross-checking device output.
    ///
    /// Fails unless the body decompresses to exactly `uncompressed_len` bytes.
    pub fn decompress_host(self, compressed: &[u8], uncompressed_len: usize) -> (decompressed: Result<
        Vec<u8>,
        HostDecodeError,
    >)
        requires
            self.allocatable(compressed@, uncompressed_len),
        ensures
            self.host_decodes(compressed@, uncompressed_len, decompressed),
            ({
                let made = match self {
                    GpuCodec::Snappy => snappy_decoded(compressed@),
                    GpuCodec::Zstd => zstd_decoded(
                        compressed@,
                        Seq::new(uncompressed_len as nat, |i: int| 0u8),
                    ),
                };
                match decompressed {
                    Ok(bytes) => made == Some(bytes@) && bytes@.len() == uncompressed_len,
                    Err(HostDecodeError::LengthMismatch { actual, declared }) => made matches Some(
                        full,
                    ) && full.len() == actual && declared == uncompressed_len && actual != declared,
                    Err(HostDecodeError::Rejected) => made is None,
                }
            }),
    {
        let decoded: Result<Vec<u8>, HostDecodeError> = match self {
            GpuCodec::Snappy => match snappy_decompress(compressed) {
                Ok(bytes) => Ok(bytes),
                Err(_) => Err(HostDecodeError::Rejected),
            },
            GpuCodec::Zstd => {
                let mut buffer: Vec<u8> = vec![0u8; uncompressed_len];
                assert(buffer@ =~= zeros(uncompressed_len as nat));
                match zstd_decompress(compressed, &mut buffer) {
                    Ok(written) => {
                        buffer.truncate(written);
                        Ok(buffer)
                    },
                    Err(_) => Err(HostDecodeError::Rejected),
                }
            },
        };
        check_decoded_len(decoded, uncompressed_len)
    }
}

/// A codec matches the Parquet setting that it writes with.
pub proof fn law_codec_matches_its_own_setting(codec: GpuCodec, compression: Compression)
    requires
        codec.writes_with(compression),
    ensures
        codec.wrote(compression),
{
}

/// No column chunk matches both codecs.
pub proof fn law_codecs_exclude_each_other(compression: Compression)
    ensures
        !(GpuCodec::Snappy.wrote(compression) && GpuCodec::Zstd.wrote(compression)),
{
}

/// What decompressing a page body on the host gives is what the codec's decoder makes of its
/// bytes, where they are as many as declared; a report of how many they are, where they are
/// not; and a rejection where the decoder makes nothing of them.
pub proof fn law_host_gives_what_the_decoder_makes(
    codec: GpuCodec,
    compressed: Seq<u8>,
    uncompressed_len: usize,
    decompressed: Result<Vec<u8>, HostDecodeError>,
)
    requires
        codec.host_decodes(compressed, uncompressed_len, decompressed),
    ensures
        ({
            let made = match codec {
                GpuCodec::Snappy => snappy_decoded(compressed),
                GpuCodec::Zstd => zstd_decoded(
                    compressed,
                    Seq::new(uncompressed_len as nat, |i: int| 0u8),
                ),
            };
            match (made, decompressed) {
                (Some(full), Ok(bytes)) => bytes@ == full && full.len() == uncompressed_len,
                (Some(full), Err(HostDecodeError::LengthMismatch { actual, declared })) => {
                    actual == full.len() && declared == uncompressed_len && actual != declared
                },
                (None, Err(HostDecodeError::Rejected)) => true,
                _ => false,
            }
        }),
{
    assert(zeros(uncompressed_len as nat) =~= Seq::new(uncompressed_len as nat, |i: int| 0u8));
}

/// So many zeros are that many, and zero each.
pub proof fn law_zeros_are_zero(len: nat)
    ensures
        zeros(len).len() == len,
        forall|i: int| 0 <= i < len ==> #[trigger] zeros(len)[i] == 0,
{
}

/// A Snappy block that starts with the length `len` can be decompressed where a buffer of that
/// length can be allocated. A host whose addresses have more than 32 bits always can.
pub proof fn law_snappy_length_decides_the_buffer(compressed: Seq<u8>, len: nat)
    requires
        len <= u32::MAX,
        stand_at(compressed, 0, varint_bytes(len)),
    ensures
        snappy_len_allocatable(compressed) <==> len <= isize::MAX,
        isize::MAX >= u32::MAX ==> forall|block: Seq<u8>| #[trigger] snappy_len_allocatable(block),
{
    law_varint_reads_what_was_written(compressed, 0, len as u64);
    reveal_with_fuel(varint_bytes, 6);
    assert(varint_bytes(len).len() <= 5);
}

} // verus!
