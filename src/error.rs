use vstd::prelude::*;

verus! {

/// Why a byte stream could not be decoded.
#[derive(Debug, Clone, Copy, PartialEq, Eq, Structural)]
pub enum DecodeError {
    /// The input ended before a value's bytes were complete.
    TruncatedInput,
    /// A tag byte matches no kind of value.
    InvalidTag,
    /// A string reference points past the end of the dictionary.
    StringIndexOutOfRange,
    /// A number does not fit the integer width it is read into.
    NumberOutOfRange,
}

} // verus!
