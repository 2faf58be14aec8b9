use vstd::prelude::*;

verus! {

/// The ways in which decoding a value can fail.
#[derive(Debug, Clone, Copy, PartialEq, Eq, Structural)]
pub enum DecodeError {
    /// The source ran out of bytes before the value was complete.
    InsufficientData,
    /// A decoded size does not fit into this machine's `usize`.
    OutsideUsizeRange(u64),
    /// A decoded sequence length is above the bound.
    ArrayTooBig(usize),
    /// A tagged union's discriminant names no variant.
    UnknownEnumVariant(u8),
}

/// The ways in which encoding a value can fail.
#[derive(Debug, Clone, Copy, PartialEq, Eq, Structural)]
pub enum EncodeError {
    /// A size value does not fit into the 32-bit wire field.
    OutsideU32Range(usize),
    /// A sequence holds more elements than the bound allows.
    ArrayTooBig(usize),
}

} // verus!
