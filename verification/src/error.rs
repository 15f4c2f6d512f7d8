use vstd::prelude::*;

verus! {

/// The failures that the cipher engines surface to their callers.
///
/// Every engine reports problems as a typed value rather than panicking or
/// silently truncating; the variant names the engine that raised it.
#[derive(Clone, Copy, Debug, PartialEq, Eq, Structural)]
pub enum CipherError {
    /// The stream cipher was given an empty key.
    InvalidKey,
    /// Block-cipher decryption saw a ciphertext whose length is not a
    /// positive multiple of the block size, or whose trailing padding bytes
    /// do not follow the byte-padding contract.
    MalformedPadding,
    /// The one-time pad was given a key shorter than the data buffer.
    LengthMismatch,
}

} // verus!
