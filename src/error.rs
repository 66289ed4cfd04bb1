use vstd::prelude::*;

verus! {

/// Structural failures reported by decoding and type-string rendering.
#[derive(Clone, Copy, Debug, PartialEq, Eq, Structural)]
pub enum DecodeError {
    /// A referenced type identifier has no registry entry.
    UnknownTypeId,
    /// Fewer bytes remain than a field needs.
    BufferUnderrun,
    /// Non-minimal or malformed compact-integer framing.
    InvalidCompactEncoding,
    /// A boolean byte outside `{0, 1}`.
    InvalidBooleanEncoding,
    /// A text field whose bytes are not UTF-8.
    InvalidUtf8,
    /// The nesting depth guard was reached.
    TypeTooDeep,
    /// A type kind that the decoder does not handle (enumerations, bit
    /// sequences).
    UnsupportedType,
}

} // verus!
