//! The decode-side error type of a later revision of the interface,
//! with the offending delimiter carried in the variant.

use vstd::prelude::*;

verus! {

/// Everything that can go wrong while decoding, with the delimiter or
/// tag at fault carried alongside.
#[derive(Debug, Clone, Copy, PartialEq, Eq, Structural)]
pub enum BencodingDeserializeError {
    /// A character was to be read with none remaining.
    OutOfCharacters,
    /// Input remained after a complete top-level value.
    TrailingCharacters,
    /// The named opening symbol was expected but not found.
    NoFoundOpeningDeliminator(char),
    /// The symbol `:` was expected but not found.
    NoFoundColon,
    /// The named closing symbol was expected but not found.
    NoFoundClosingDeliminator(char),
    /// A string holding invalid UTF-8 was to be read as text.
    InputNotUtf8,
    /// A numeric field was empty or too large for its target width.
    ParseIntError,
    /// The format cannot express a boolean.
    InvalidTypeBool,
    /// The format cannot express a floating-point number.
    InvalidTypeFloat,
    /// The format cannot express the named shape.
    InvalidTypeOther(char),
    /// A null value was expected.
    ExpectedNull,
}

impl BencodingDeserializeError {
    /// A short, fixed description of the error, one per variant.
    pub fn message(&self) -> (r: &'static str)
        ensures
            r@ == self.spec_message(),
    {
        match self {
            Self::OutOfCharacters => "a character was tried to be read with none remaining",
            Self::TrailingCharacters => "after parsing there are unexpected characters remaining",
            Self::NoFoundOpeningDeliminator(_) => "opening symbol was expected but not found",
            Self::NoFoundColon => "symbol ':' was expected but not found",
            Self::NoFoundClosingDeliminator(_) => "closing symbol was expected but not found",
            Self::InputNotUtf8 => "a string containing invalid UTF-8 was tried to be read",
            Self::ParseIntError => "an error occurred while parsing an int",
            Self::InvalidTypeBool => "type 'bool' not supported",
            Self::InvalidTypeFloat => "type 'float' not supported",
            Self::InvalidTypeOther(_) => "type not supported",
            Self::ExpectedNull => "expected null",
        }
    }

    /// What [`Self::message`] returns, variant by variant.
    pub open spec fn spec_message(&self) -> Seq<char> {
        match self {
            Self::OutOfCharacters => "a character was tried to be read with none remaining"@,
            Self::TrailingCharacters => "after parsing there are unexpected characters remaining"@,
            Self::NoFoundOpeningDeliminator(_) => "opening symbol was expected but not found"@,
            Self::NoFoundColon => "symbol ':' was expected but not found"@,
            Self::NoFoundClosingDeliminator(_) => "closing symbol was expected but not found"@,
            Self::InputNotUtf8 => "a string containing invalid UTF-8 was tried to be read"@,
            Self::ParseIntError => "an error occurred while parsing an int"@,
            Self::InvalidTypeBool => "type 'bool' not supported"@,
            Self::InvalidTypeFloat => "type 'float' not supported"@,
            Self::InvalidTypeOther(_) => "type not supported"@,
            Self::ExpectedNull => "expected null"@,
        }
    }
}

} // verus!
