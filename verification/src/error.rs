//! The ways in which reading a command tag from a buffer can fail.

use vstd::prelude::*;

verus! {

/// Why a command tag could not be read from a buffer.
#[derive(Debug, Clone, Copy, PartialEq, Eq, Structural)]
pub enum DecodeError {
    /// The buffer ends before a NUL byte is found.
    MissingTerminator,
    /// The bytes in front of the NUL byte are not well-formed UTF-8.
    InvalidText,
}

} // verus!
