use vstd::prelude::*;

verus! {

/// Why an operation of this library refused its input or could not finish.
#[derive(Debug, Clone, Copy, PartialEq, Eq, Structural)]
pub enum CryptoError {
    /// Two byte sequences that must have equal lengths do not.
    LengthMismatch,
    /// A block-cipher key is not exactly one block long.
    InvalidKeyLength,
    /// A ciphertext's length is not a multiple of the block size.
    MisalignedCiphertext,
    /// The underlying block cipher reported a failure.
    CipherFailure,
}

} // verus!
