//! A Feistel-network block transform over byte buffers.
//!
//! The transform is keyed by a non-empty byte string whose length fixes the
//! half-block size. The same routine encrypts and decrypts: the two directions
//! differ only in the order in which the round indices are visited.
use vstd::prelude::*;

pub mod cipher;
pub mod framing;
pub mod inverse;
pub mod laws;
pub mod round;

pub use crate::cipher::feistel;
pub use crate::framing::pad_block;
pub use crate::round::{f, round_key};

verus! {

/// Direction of the transform. It selects the order of the round indices and
/// nothing else.
#[derive(Clone, Copy, Debug, PartialEq, Eq, Structural)]
pub enum FeistelMode {
    Encrypt,
    Decrypt,
}

impl FeistelMode {
    /// The other direction.
    pub open spec fn opposite(self) -> FeistelMode {
        match self {
            FeistelMode::Encrypt => FeistelMode::Decrypt,
            FeistelMode::Decrypt => FeistelMode::Encrypt,
        }
    }
}

/// Why a call was rejected.
#[derive(Clone, Copy, Debug, PartialEq, Eq, Structural)]
pub enum FeistelError {
    /// The key is empty, so there is no block size to frame the input with.
    InvalidKey,
}

} // verus!
