//! The library's error type.
use vstd::prelude::*;

use pco::errors::PcoError;

verus! {

/// Why reading or writing a distribution failed.
#[derive(Debug)]
pub enum Error {
    /// The input is shorter than its header, or than the blobs the header
    /// announces: `len` bytes were given, `need` were required.
    DataTooShort { len: usize, need: u128 },
    /// The decoded map does not hold as many entries as the header declares.
    EntryCountMismatch { declared: u64, found: usize },
    /// The numeric codec refused to compress or decompress a blob.
    Compression(PcoError),
}

} // verus!
