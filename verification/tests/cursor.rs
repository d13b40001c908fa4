use bencoding::value::Value;
use bencoding::Dict;

#[test]
fn byte_cursor_primitives() {
    let mut d = bencoding::de::Deserializer::from_str("i52e4:spam");

    assert_eq!(&105u8, d.peek_byte().unwrap());
    assert_eq!(105u8, d.read_byte().unwrap());

    // The digit run ends at the closing tag two bytes in.
    assert_eq!(Some(3), d.position_next());
    assert_eq!(52u64, d.read_integer(u64::MAX).unwrap());
    assert_eq!(101u8, d.read_byte().unwrap());

    let bytes = d.parse_bytes().unwrap();
    assert_eq!(b"spam".to_vec(), bytes.to_vec());
    assert!(d.done());
}

#[test]
fn byte_cursor_typed_reads() {
    let mut d = bencoding::de::Deserializer::from_bytes(b"i-3e");
    assert_eq!(-3i64, d.parse_signed().unwrap());

    let mut d = bencoding::de::Deserializer::from_bytes(b"i3e");
    assert_eq!(3u64, d.parse_unsigned().unwrap());

    let mut d = bencoding::de::Deserializer::from_bytes(b"4:spam");
    assert_eq!("spam", d.parse_str().unwrap());

    let mut d = bencoding::de::Deserializer::from_bytes(b"3:abcrest");
    let r = d.read_bytes(30);
    assert!(r.is_err());
    let _ = d.read_byte().unwrap();
    let _ = d.read_byte().unwrap();
    assert_eq!("abc", d.read_string(3).unwrap());

    let mut d = bencoding::de::Deserializer::from_bytes(b"le");
    assert_eq!(Value::List(Vec::new()), d.parse_value().unwrap());
}

#[test]
fn char_cursor() {
    let mut d = bencoding::bencode::Deserializer::from_str("i5e");

    assert_eq!('i', d.peek_char().unwrap());
    assert_eq!('i', d.next_char().unwrap());
    assert_eq!('5', d.next_char().unwrap());
    assert_eq!('e', d.next_char().unwrap());
    assert_eq!(
        Err(bencoding::DeBencodingError::Eof),
        d.next_char()
    );
}

#[test]
fn dict_operations() {
    let mut d = Dict::with_capacity(3);
    assert_eq!(0, d.len());

    d.push(b"b".to_vec(), Value::Int(2));
    d.push(b"a".to_vec(), Value::Int(1));
    assert_eq!(2, d.len());

    // Pairs read back in ascending key order.
    assert_eq!(&b"a".to_vec(), &d.pair_at(0).0);
    assert_eq!(&Value::Int(1), &d.pair_at(0).1);
    assert_eq!(&b"b".to_vec(), &d.pair_at(1).0);

    // Sorting a sorted dictionary changes nothing.
    let before = bencoding::to_bytes(&Value::Dict(d));
    let mut d2 = Dict::new();
    d2.push(b"b".to_vec(), Value::Int(2));
    d2.push(b"a".to_vec(), Value::Int(1));
    d2.ben_sort();
    let after = bencoding::to_bytes(&Value::Dict(d2));
    assert_eq!(before, after);
}

#[test]
fn dict_duplicate_keys_are_kept() {
    // Duplicates are preserved positionally, in arrival order.
    let mut d = Dict::new();
    d.push(b"k".to_vec(), Value::Int(1));
    d.push(b"k".to_vec(), Value::Int(2));
    assert_eq!(2, d.len());
    assert_eq!(&Value::Int(1), &d.pair_at(0).1);
    assert_eq!(&Value::Int(2), &d.pair_at(1).1);
}
