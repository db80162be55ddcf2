use vstd::prelude::*;

verus! {

/// Everything that can go wrong while a container is written or read.
#[derive(Debug, Clone, Copy, PartialEq, Eq, Structural)]
pub enum BdfError {
    /// The input ended before a declared number of bytes could be taken.
    Truncation,
    /// The input does not begin with the container's magic bytes.
    InvalidHeader,
    /// A chunk carries a name other than the one asked for, or one the format does not know.
    InvalidChunkName,
    /// The meta chunk names a compression method other than `lzma`.
    UnsupportedCompression,
    /// A payload does not have the checksum that its chunk declares.
    CrcMismatch,
    /// A name or a plaintext is not valid UTF-8.
    InvalidUtf8,
    /// A call came in a state that does not admit it.
    StateViolation,
    /// A digest record names a hash id that the lookup table does not hold.
    UnknownHashId,
    /// The decoder rejected a compressed payload.
    IoError,
}

} // verus!
