//! Errors of the value-mapping layer: what the serializer and the
//! deserializer report when a value has no wire representation or a wire
//! value cannot satisfy the requested shape.

use vstd::prelude::*;

verus! {

/// A terminal mapping error. Each is returned to the caller; nothing is
/// retried or recovered internally.
#[derive(Debug, PartialEq, Clone)]
pub enum Error {
    /// Free-form text, for embedders that wrap this codec in a framework
    /// with its own error channel.
    Message(String),
    /// A numeric value does not fit the protocol's signed 64-bit integers.
    InvalidInteger,
    /// A text or byte payload is longer than the protocol's bulk cap.
    TooMuchBulk,
    /// The value's shape has no wire representation at all.
    UnsupportedType,
    /// A sequence's length is not known before its elements are produced,
    /// but the wire format writes the count first.
    UnknownLength,
    /// The wire value present cannot satisfy the shape the caller asked
    /// to rebuild.
    ShapeMismatch,
    /// The buffer ended before one whole wire value.
    Incomplete,
    /// The buffer can never parse; carries the parser's verdict.
    Parse(crate::parser::Error),
}

} // verus!
