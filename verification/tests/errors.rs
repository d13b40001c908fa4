use bencoding::DeBencodingError;

#[test]
fn trailing_characters_at_top_level() {
    let r: Result<String, _> = bencoding::from_str("4:spamX");
    assert_eq!(Err(DeBencodingError::TrailingCharacters), r);

    let r: Result<i64, _> = bencoding::from_str("i5ee");
    assert_eq!(Err(DeBencodingError::TrailingCharacters), r);
}

#[test]
fn prefix_read_inside_a_cursor_succeeds() {
    // The same bytes that fail the whole-input entry point are a fine
    // prefix read for a caller holding the cursor, as inside a list.
    let mut cursor = bencoding::de::Deserializer::from_str("4:spamX");
    let bytes = cursor.parse_bytes().unwrap();
    assert_eq!(b"spam".to_vec(), bytes.to_vec());
    assert!(!cursor.done());
}

#[test]
fn unexpected_type_tag() {
    let r = bencoding::from_bytes(b"zzz");
    assert_eq!(Err(DeBencodingError::UnexpectedCharType('z')), r);
}

#[test]
fn missing_colon() {
    let r = bencoding::from_bytes(b"4xabc");
    assert_eq!(Err(DeBencodingError::NoFoundColon), r);
}

#[test]
fn truncated_string_rejected() {
    // A declared length beyond the remaining bytes never yields a
    // truncated value.
    let r = bencoding::from_bytes(b"10:abc");
    assert_eq!(Err(DeBencodingError::WrongLengthOfString), r);

    let r = bencoding::from_bytes(b"5:spam");
    assert_eq!(Err(DeBencodingError::WrongLengthOfString), r);
}

#[test]
fn integer_parse_failures() {
    let r = bencoding::from_bytes(b"ie");
    assert_eq!(Err(DeBencodingError::ParseIntError), r);

    let r = bencoding::from_bytes(b"i-e");
    assert_eq!(Err(DeBencodingError::ParseIntError), r);

    // One past the engine's width.
    let r = bencoding::from_bytes(b"i9223372036854775808e");
    assert_eq!(Err(DeBencodingError::ParseIntError), r);

    // A negative field has an empty digit run for the unsigned reader.
    let r: Result<u64, _> = bencoding::from_str("i-5e");
    assert_eq!(Err(DeBencodingError::ParseIntError), r);
}

#[test]
fn missing_delimiters() {
    let r = bencoding::from_bytes(b"i42");
    assert_eq!(Err(DeBencodingError::NoFoundClosingDeliminator), r);

    let r = bencoding::from_bytes(b"i42x");
    assert_eq!(Err(DeBencodingError::NoFoundClosingDeliminator), r);

    let r: Result<i64, _> = bencoding::from_str("4:spam");
    assert_eq!(Err(DeBencodingError::NoFoundOpeningDeliminator), r);

    let r: Result<Vec<i64>, _> = bencoding::from_str("i5e");
    assert_eq!(Err(DeBencodingError::NoFoundOpeningDeliminator), r);
}

#[test]
fn end_of_input() {
    let r = bencoding::from_bytes(b"");
    assert_eq!(Err(DeBencodingError::Eof), r);

    // An unterminated list runs out of bytes looking for its items.
    let r = bencoding::from_bytes(b"l");
    assert_eq!(Err(DeBencodingError::Eof), r);

    let r = bencoding::from_bytes(b"li5e");
    assert_eq!(Err(DeBencodingError::Eof), r);
}

#[test]
fn dict_key_must_be_a_string() {
    let r = bencoding::from_bytes(b"di5ei6ee");
    assert_eq!(Err(DeBencodingError::UnexpectedCharType('i')), r);
}

#[test]
fn error_messages() {
    assert_eq!("Unexpected end of file", DeBencodingError::Eof.message());
    assert_eq!(
        "Unexpected trailing characters",
        DeBencodingError::TrailingCharacters.message()
    );
    assert_eq!(
        "No colon found whilst parsing string",
        DeBencodingError::NoFoundColon.message()
    );
    assert_eq!(
        "an error occurred while parsing an int",
        bencoding::de::err::BencodingDeserializeError::ParseIntError.message()
    );
    let e = bencoding::ser::err::BencodingSerializeError::SerdeSerializeError(
        "boxed".to_string(),
    );
    assert_eq!("boxed", e.message());
}
