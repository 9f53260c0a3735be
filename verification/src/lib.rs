use vstd::prelude::*;

pub mod archive;
pub mod bytes;
pub mod chunk;
pub mod compose;
pub mod laws;
pub mod png;
pub mod ziplayout;

verus! {

/// Why an operation was refused.
#[derive(Clone, Copy, Debug, PartialEq, Eq, Structural)]
pub enum ZipPngError {
    /// A buffer lacks a signature or record the format requires.
    MalformedInput,
    /// The archive's offsets or sizes cannot be represented in 32 bits.
    UnsupportedArchive,
    /// The destination could not be written.
    IOFailure,
}

} // verus!
