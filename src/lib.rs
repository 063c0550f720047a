//! Repeating-key XOR cryptanalysis and AES-128 in CBC mode, with their
//! contracts proved.
use vstd::prelude::*;

pub mod buffer;
pub mod cbc;
pub mod error;
pub mod estimate;
pub mod padding;
pub mod xor;

verus! {

} // verus!
