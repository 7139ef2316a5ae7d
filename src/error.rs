//! The failure taxonomy shared by every component.

use vstd::prelude::*;

verus! {

/// Failures shared by every part of the codec.
#[derive(Debug, Clone, Copy, PartialEq, Eq, Structural)]
pub enum Error {
    /// The value is present but of another major type than the one asked for.
    IncorrectType,
    /// The buffer, or the destination, is shorter than the header or payload needs.
    TooShort,
    /// The value does not fit the requested narrower type.
    NumberTooBig,
    /// A reserved selector, or an indefinite argument where a definite one is needed.
    InvalidCode,
    /// An indefinite-length form that is not supported.
    Infinite,
    /// A text string payload that is not valid UTF-8.
    NonUTF8String,
    /// A failure of a consumer that renders the value as text.
    FormatError,
    /// The value nests containers and tags deeper than the decoder allows.
    TooDeep,
}

} // verus!
