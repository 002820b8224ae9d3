//! The failures that decoding and encoding can report.

use vstd::prelude::*;

verus! {

/// Why a decode or an encode stopped. Every error ends the call that met it.
#[derive(Debug, Clone, Copy, PartialEq, Eq)]
pub enum Error {
    /// A read asks for more bytes than the enclosing scope still permits, or
    /// a length is more than a prefix of four bytes can hold.
    Overflow,
    /// A message was decoded but its declared length was not used up.
    Underflow,
    /// The byte source ran out although the budget still permitted the read.
    EndOfBuffer,
    /// The body of a text value is not valid UTF-8.
    BadStringData,
    /// A map entry holds no `=` between key and value.
    BadMapEntry,
    /// A sum type or an optional value was asked for.
    UnsupportedEnumType,
    /// A single character was asked for.
    UnsupportedCharType,
    /// A shape was asked for that needs type information from the wire. The
    /// text names what was asked for.
    UnsupportedDeserializerMethod(&'static str),
}

} // verus!
