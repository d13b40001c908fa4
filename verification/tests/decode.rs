use bencoding::value::Value;
use bencoding::Dict;

#[test]
fn decode_string() {
    let encoded = "4:spam";
    let decoded: String = bencoding::from_str(encoded).unwrap();

    assert_eq!("spam".to_string(), decoded);

    let encoded = "0:";
    let decoded: String = bencoding::from_str(encoded).unwrap();

    assert_eq!("".to_string(), decoded);

    let encoded = "4:eggs";
    let decoded: String = bencoding::from_str(encoded).unwrap();

    assert_eq!("eggs".to_string(), decoded);
}

#[test]
fn decode_int() {
    let encoded = "i52e";

    assert_eq!(52i64, bencoding::from_str(encoded).unwrap());

    let encoded = "i-52e";

    assert_eq!(-52i64, bencoding::from_str(encoded).unwrap());

    let encoded = "i0e";

    assert_eq!(0i64, bencoding::from_str(encoded).unwrap());

    let encoded = "i-0e";

    assert_eq!(0i64, bencoding::from_str(encoded).unwrap());
}

#[test]
fn decode_vec() {
    let encoded = "le";
    let decoded: Vec<String> = bencoding::from_str(encoded).unwrap();

    assert_eq!(Vec::<String>::new(), decoded);

    let encoded = "l4:spam4:eggse";
    let decoded: Vec<String> = bencoding::from_str(encoded).unwrap();

    assert_eq!(vec!["spam".to_string(), "eggs".to_string()], decoded);

    let encoded = "li5ei-15ei25ee";
    let decoded: Vec<i64> = bencoding::from_str(encoded).unwrap();

    assert_eq!(vec![5, -15, 25], decoded);

    let encoded = "lli7ei2eeli12ei53eee";

    let decoded: Vec<Vec<i64>> = bencoding::from_str(encoded).unwrap();

    assert_eq!(vec![vec![7, 2], vec![12, 53]], decoded);
}

#[test]
fn person_decode() {
    let encoded = "d4:name7:test_016:gender4:Male3:agei50ee";
    let mut person = Dict::new();
    person.push("name".as_bytes().to_vec(), Value::Str("test_01".as_bytes().to_vec()));
    person.push("gender".as_bytes().to_vec(), Value::Str("Male".as_bytes().to_vec()));
    person.push("age".as_bytes().to_vec(), Value::Int(50));

    assert_eq!(Value::Dict(person), bencoding::from_str(encoded).unwrap());

    let encoded = "d4:name3:bob17:publisher_webpage15:www.example.com18:publisher_location4:homee";
    let mut publisher = Dict::new();
    publisher.push("name".as_bytes().to_vec(), Value::Str("bob".as_bytes().to_vec()));
    publisher.push(
        "publisher_webpage".as_bytes().to_vec(),
        Value::Str("www.example.com".as_bytes().to_vec()),
    );
    publisher.push(
        "publisher_location".as_bytes().to_vec(),
        Value::Str("home".as_bytes().to_vec()),
    );

    assert_eq!(Value::Dict(publisher), bencoding::from_str(encoded).unwrap());

    let encoded = "d3:vecli5ei24ei16ei178eee";
    let mut vstruct = Dict::new();
    vstruct.push(
        "vec".as_bytes().to_vec(),
        Value::List(vec![Value::Int(5), Value::Int(24), Value::Int(16), Value::Int(178)]),
    );

    assert_eq!(Value::Dict(vstruct), bencoding::from_str(encoded).unwrap());
}

#[test]
fn decode_unsigned_beyond_signed_width() {
    let decoded: u64 = bencoding::from_str("i18446744073709551615e").unwrap();

    assert_eq!(u64::MAX, decoded);

    let signed: Result<i64, _> = bencoding::from_str("i18446744073709551615e");

    assert_eq!(Err(bencoding::DeBencodingError::ParseIntError), signed);
}

#[test]
fn decode_generic_value() {
    let decoded = bencoding::from_bytes(b"l4:spami-7eli1eed1:a1:bee").unwrap();

    let mut inner = Dict::new();
    inner.push(b"a".to_vec(), Value::Str(b"b".to_vec()));
    let expected = Value::List(vec![
        Value::Str(b"spam".to_vec()),
        Value::Int(-7),
        Value::List(vec![Value::Int(1)]),
        Value::Dict(inner),
    ]);

    assert_eq!(expected, decoded);
}

#[test]
fn decode_empty_containers() {
    assert_eq!(Value::List(Vec::new()), bencoding::from_str("le").unwrap());
    assert_eq!(Value::Dict(Dict::new()), bencoding::from_str("de").unwrap());
}

#[test]
fn decode_dict_key_ordering() {
    // Keys arrive ascending on the wire; building the same dictionary
    // with `open` pushed before `close` must compare equal and encode
    // to the same bytes.
    let encoded = "d5:closeli42ei43ei44ee4:openli24ei34ei44eee";
    let decoded: Value = bencoding::from_str(encoded).unwrap();

    let mut built = Dict::new();
    built.push(
        "open".as_bytes().to_vec(),
        Value::List(vec![Value::Int(24), Value::Int(34), Value::Int(44)]),
    );
    built.push(
        "close".as_bytes().to_vec(),
        Value::List(vec![Value::Int(42), Value::Int(43), Value::Int(44)]),
    );
    let built = Value::Dict(built);

    assert_eq!(built, decoded);
    assert_eq!(bencoding::to_bytes(&built), encoded.as_bytes().to_vec());
}

#[test]
fn decode_narrow_widths() {
    assert_eq!(52i32, bencoding::from_str("i52e").unwrap());
    assert_eq!(-52i16, bencoding::from_str("i-52e").unwrap());
    assert_eq!(52i8, bencoding::from_str("i52e").unwrap());
    assert_eq!(52u32, bencoding::from_str("i52e").unwrap());
    assert_eq!(52u16, bencoding::from_str("i52e").unwrap());
    assert_eq!(52u8, bencoding::from_str("i52e").unwrap());

    // A value beyond the asked-for width is unparsable at that width.
    let r: Result<u8, _> = bencoding::from_str("i256e");
    assert_eq!(Err(bencoding::DeBencodingError::ParseIntError), r);
    let r: Result<i8, _> = bencoding::from_str("i-129e");
    assert_eq!(Err(bencoding::DeBencodingError::ParseIntError), r);
    assert_eq!(-128i8, bencoding::from_str("i-128e").unwrap());
}
