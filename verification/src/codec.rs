//! The calls into the `pco` numeric codec that the on-disk format uses.
//!
//! The codec itself is not verified here: each item below states what the
//! library relies on, and nothing more.
use vstd::prelude::*;

use pco::errors::PcoError;
use pco::standalone::{simple_compress, simple_decompress};
use pco::ChunkConfig;

verus! {

/// `pco::errors::PcoError`, carried through unchanged inside the library's error.
#[verifier::external_type_specification]
#[verifier::external_body]
pub struct ExPcoError(PcoError);

/// The `u32` list that `pco::standalone::simple_decompress` reads from a byte
/// string, or `None` where it reports an error.
pub uninterp spec fn pco_decompressed_u32(bytes: Seq<u8>) -> Option<Seq<u32>>;

/// The `u64` list that `pco::standalone::simple_decompress` reads from a byte
/// string, or `None` where it reports an error.
pub uninterp spec fn pco_decompressed_u64(bytes: Seq<u8>) -> Option<Seq<u64>>;

/// Calls `pco::standalone::simple_compress::<u32>` with the default chunk
/// configuration. Claimed: it succeeds (its only error paths are an invalid
/// configuration and a failing writer; the default configuration is valid
/// and the output is a `Vec`), and, as pco is a lossless codec, decompressing
/// the bytes gives the input back. Not claimed: which bytes it produces; the
/// compression mode is chosen with floating-point scoring, so the bytes need
/// not be the same from one platform or build to another.
#[verifier::external_body]
pub(crate) fn compress_u32(nums: &[u32]) -> (r: Result<Vec<u8>, PcoError>)
    ensures
        r is Ok,
        r matches Ok(b) ==> pco_decompressed_u32(b@) == Some(nums@),
{
    simple_compress(nums, &ChunkConfig::default())
}

/// Calls `pco::standalone::simple_compress::<u64>` with the default chunk
/// configuration. Claimed: it succeeds (its only error paths are an invalid
/// configuration and a failing writer; the default configuration is valid
/// and the output is a `Vec`), and, as pco is a lossless codec, decompressing
/// the bytes gives the input back. Not claimed: which bytes it produces; the
/// compression mode is chosen with floating-point scoring, so the bytes need
/// not be the same from one platform or build to another.
#[verifier::external_body]
pub(crate) fn compress_u64(nums: &[u64]) -> (r: Result<Vec<u8>, PcoError>)
    ensures
        r is Ok,
        r matches Ok(b) ==> pco_decompressed_u64(b@) == Some(nums@),
{
    simple_compress(nums, &ChunkConfig::default())
}

/// Calls `pco::standalone::simple_decompress::<u32>`. Claimed: the outcome is
/// a function of the bytes (named `pco_decompressed_u32`). Not claimed: which
/// byte strings it accepts.
#[verifier::external_body]
pub(crate) fn decompress_u32(bytes: &[u8]) -> (r: Result<Vec<u32>, PcoError>)
    ensures
        r is Ok <==> pco_decompressed_u32(bytes@) is Some,
        r matches Ok(v) ==> pco_decompressed_u32(bytes@) == Some(v@),
{
    simple_decompress::<u32>(bytes)
}

/// Calls `pco::standalone::simple_decompress::<u64>`. Claimed: the outcome is
/// a function of the bytes (named `pco_decompressed_u64`). Not claimed: which
/// byte strings it accepts.
#[verifier::external_body]
pub(crate) fn decompress_u64(bytes: &[u8]) -> (r: Result<Vec<u64>, PcoError>)
    ensures
        r is Ok <==> pco_decompressed_u64(bytes@) is Some,
        r matches Ok(v) ==> pco_decompressed_u64(bytes@) == Some(v@),
{
    simple_decompress::<u64>(bytes)
}

} // verus!
