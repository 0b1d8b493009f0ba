use vstd::prelude::*;

verus! {

/// Why a codec operation refused its input.
#[derive(Debug, Clone, Copy, PartialEq, Eq, Structural)]
pub enum CodecError {
    /// Malformed hexadecimal or base64 text.
    InvalidFormat,
    /// Two sequences that must be paired element by element differ in length.
    LengthMismatch,
}

} // verus!
