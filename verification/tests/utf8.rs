#[test]
fn encode_utf8_string() {
    let string = "ϚРΑϺ".to_string();

    assert_eq!("8:ϚРΑϺ", bencoding::to_string(&string).unwrap());

    let string = "".to_string();

    assert_eq!("0:", bencoding::to_string(&string).unwrap());

    let string = "ত࠷ۆஓ".to_string();

    assert_eq!("11:ত࠷ۆஓ", bencoding::to_string(&string).unwrap());
}

#[test]
fn decode_utf8_string() {
    // The length prefix counts bytes, not characters.
    let decoded: String = bencoding::from_str("8:ϚРΑϺ").unwrap();

    assert_eq!("ϚРΑϺ".to_string(), decoded);

    let decoded: String = bencoding::from_str("11:ত࠷ۆஓ").unwrap();

    assert_eq!("ত࠷ۆஓ".to_string(), decoded);
}

#[test]
fn non_text_bytes_are_rejected_as_text() {
    // 0xff 0xfe is no UTF-8: as a generic value the bytes pass through
    // unchanged, but reading them as a `String` fails.
    let wire: Vec<u8> = vec![b'2', b':', 0xff, 0xfe];

    let value = bencoding::from_bytes(&wire).unwrap();
    assert_eq!(bencoding::value::Value::Str(vec![0xff, 0xfe]), value);

    let mut cursor = bencoding::de::Deserializer::from_bytes(&wire);
    let text = <String as bencoding::BenCodeAble>::de_bencode(&mut cursor);
    assert_eq!(Err(bencoding::DeBencodingError::InputNotUtf8), text);

    // Encoding the raw bytes as text fails the same way.
    let err = bencoding::to_string(&value);
    assert_eq!(Err(bencoding::DeBencodingError::InputNotUtf8), err);
}
