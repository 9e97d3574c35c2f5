use vstd::prelude::*;

verus! {

/// Why decoding failed.
#[derive(Debug, PartialEq, Eq, Clone)]
pub enum DecodeError {
    /// No byte of the input has its high bit set: the type delimiter is missing.
    NoType,
    /// The input is empty.
    Empty,
    /// The delimiter is known neither to the active profile nor to plain Banana.
    UnknownType(u8),
    /// The magnitude does not fit a signed 32-bit integer; holds the digit bytes.
    OverFlow(Vec<u8>),
    /// Fewer bytes than declared: (expected, actual).
    TooShort(usize, usize),
    /// Structurally malformed input.
    Invalid(String),
}

/// The abstract content of a [`DecodeError`].
pub ghost enum ErrorKind {
    NoType,
    Empty,
    UnknownType(u8),
    OverFlow(Seq<u8>),
    TooShort(nat, nat),
    Invalid(Seq<char>),
}

impl View for DecodeError {
    type V = ErrorKind;

    open spec fn view(&self) -> ErrorKind {
        match self {
            DecodeError::NoType => ErrorKind::NoType,
            DecodeError::Empty => ErrorKind::Empty,
            DecodeError::UnknownType(d) => ErrorKind::UnknownType(*d),
            DecodeError::OverFlow(digits) => ErrorKind::OverFlow(digits@),
            DecodeError::TooShort(expected, actual) => ErrorKind::TooShort(
                *expected as nat,
                *actual as nat,
            ),
            DecodeError::Invalid(msg) => ErrorKind::Invalid(msg@),
        }
    }
}

} // verus!
