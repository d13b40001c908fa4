//! The error taxonomy shared by the decoder, the encoder and the typed layer.

use vstd::prelude::*;

verus! {

/// Everything that can go wrong while reading or writing the wire format.
///
/// Every failure is reported to the caller at once; there is no partial
/// result: either the whole value decodes, or the call fails as a whole.
#[derive(Debug, Clone, Copy, PartialEq, Eq, Structural)]
pub enum DeBencodingError {
    /// Input remained after a complete top-level value was decoded.
    TrailingCharacters,
    /// The leading tag byte matches none of the four supported shapes
    /// (a digit for strings, `i` for integers, `l` for lists, `d` for
    /// dictionaries).
    UnexpectedCharType(char),
    /// A string frame `length:bytes` had no colon after its length.
    NoFoundColon,
    /// A numeric field was empty or too large for its target width.
    ParseIntError,
    /// A string frame declared more bytes than the buffer still holds.
    WrongLengthOfString,
    /// An opening delimiter was expected but not found.
    NoFoundOpeningDeliminator,
    /// A closing delimiter was expected but not found.
    NoFoundClosingDeliminator,
    /// The input ended while more bytes were required.
    Eof,
    /// An integer was expected, but the wire held another shape.
    ExpectedInt,
    /// A null value was expected, but the format cannot express one.
    ExpectedNull,
    /// A single character was expected.
    ExpectedChar,
    /// The caller's data model holds a shape the format cannot express.
    UnsupportedValueType,
    /// Bytes were requested as text but are not valid UTF-8.
    InputNotUtf8,
}

impl DeBencodingError {
    /// A short, fixed description of the error, one per variant.
    pub fn message(&self) -> (r: &'static str)
        ensures
            r@ == self.spec_message(),
    {
        match self {
            Self::TrailingCharacters => "Unexpected trailing characters",
            Self::UnexpectedCharType(_) => "Unexpected character type while parsing",
            Self::NoFoundColon => "No colon found whilst parsing string",
            Self::ParseIntError => "Error occurred whilst parsing integer",
            Self::WrongLengthOfString => "The length of the string does not match the given length",
            Self::NoFoundOpeningDeliminator => "No found opening deliminator while parsing",
            Self::NoFoundClosingDeliminator => "No found closing deliminator while parsing",
            Self::Eof => "Unexpected end of file",
            Self::ExpectedInt => "An integer was expected, but not provided",
            Self::ExpectedNull => "Expected a null value",
            Self::ExpectedChar => "Expected a char",
            Self::UnsupportedValueType => "Only integer, list, string and dictionaries are supported",
            Self::InputNotUtf8 => "A deserializer was attempted to be constructed using bytes that were not valid utf8",
        }
    }

    /// What [`Self::message`] returns, variant by variant.
    pub open spec fn spec_message(&self) -> Seq<char> {
        match self {
            Self::TrailingCharacters => "Unexpected trailing characters"@,
            Self::UnexpectedCharType(_) => "Unexpected character type while parsing"@,
            Self::NoFoundColon => "No colon found whilst parsing string"@,
            Self::ParseIntError => "Error occurred whilst parsing integer"@,
            Self::WrongLengthOfString => "The length of the string does not match the given length"@,
            Self::NoFoundOpeningDeliminator => "No found opening deliminator while parsing"@,
            Self::NoFoundClosingDeliminator => "No found closing deliminator while parsing"@,
            Self::Eof => "Unexpected end of file"@,
            Self::ExpectedInt => "An integer was expected, but not provided"@,
            Self::ExpectedNull => "Expected a null value"@,
            Self::ExpectedChar => "Expected a char"@,
            Self::UnsupportedValueType => "Only integer, list, string and dictionaries are supported"@,
            Self::InputNotUtf8 => "A deserializer was attempted to be constructed using bytes that were not valid utf8"@,
        }
    }
}

} // verus!
