use bencoding::value::Value;
use bencoding::Dict;

#[test]
fn encode_string() {
    let string = "spam".to_string();

    assert_eq!("4:spam", bencoding::to_string(&string).unwrap());

    let string = "".to_string();

    assert_eq!("0:", bencoding::to_string(&string).unwrap());

    let string = "eggs".to_string();

    assert_eq!("4:eggs", bencoding::to_string(&string).unwrap());
}

#[test]
fn encode_int() {
    let integer: i64 = 52;

    assert_eq!("i52e", bencoding::to_string(&integer).unwrap());

    let integer: i64 = -52;

    assert_eq!("i-52e", bencoding::to_string(&integer).unwrap());

    let integer: i64 = 0;

    assert_eq!("i0e", bencoding::to_string(&integer).unwrap());

    let integer: i64 = -0;

    assert_eq!("i0e", bencoding::to_string(&integer).unwrap());
}

#[test]
fn encode_vec() {
    let vec = vec!["spam".to_string(), "eggs".to_string()];

    assert_eq!("l4:spam4:eggse", bencoding::to_string(&vec).unwrap());

    let vec: Vec<i64> = vec![15, 6];

    assert_eq!("li15ei6ee", bencoding::to_string(&vec).unwrap());

    let vec: Vec<Vec<i64>> = vec![vec![16, 3], vec![12, 25]];

    assert_eq!("lli16ei3eeli12ei25eee", bencoding::to_string(&vec).unwrap());
}

#[test]
fn person_encode() {
    // The encoder is canonical: keys are emitted in ascending order,
    // whatever order they were inserted in.
    let mut person = Dict::new();
    person.push("name".as_bytes().to_vec(), Value::Str("test_01".as_bytes().to_vec()));
    person.push("gender".as_bytes().to_vec(), Value::Str("Male".as_bytes().to_vec()));
    person.push("age".as_bytes().to_vec(), Value::Int(50));

    assert_eq!(
        "d3:agei50e6:gender4:Male4:name7:test_01e",
        bencoding::to_string(&person).unwrap()
    );

    let mut vstruct = Dict::new();
    vstruct.push(
        "vec".as_bytes().to_vec(),
        Value::List(vec![Value::Int(5), Value::Int(24), Value::Int(16), Value::Int(178)]),
    );

    assert_eq!("d3:vecli5ei24ei16ei178eee", bencoding::to_string(&vstruct).unwrap());
}

#[test]
fn encode_insertion_order_independent() {
    // Canonical-dictionary law on concrete values: the same pairs in
    // two insertion orders encode to the same bytes.
    let mut forward = Dict::new();
    forward.push(b"a".to_vec(), Value::Int(1));
    forward.push(b"b".to_vec(), Value::Int(2));
    forward.push(b"c".to_vec(), Value::Int(3));

    let mut backward = Dict::new();
    backward.push(b"c".to_vec(), Value::Int(3));
    backward.push(b"a".to_vec(), Value::Int(1));
    backward.push(b"b".to_vec(), Value::Int(2));

    assert_eq!(forward, backward);
    assert_eq!(
        bencoding::to_bytes(&Value::Dict(forward)),
        bencoding::to_bytes(&Value::Dict(backward))
    );
}

#[test]
fn encode_decode_round_trip() {
    // Round-trip law on concrete values: nested lists and dictionaries
    // come back exactly as they went in.
    let mut dict = Dict::new();
    dict.push(b"list".to_vec(), Value::List(vec![Value::Int(7), Value::Int(2)]));
    dict.push(b"raw".to_vec(), Value::Str(vec![0, 159, 146, 150]));
    let value = Value::List(vec![
        Value::Dict(dict),
        Value::Int(-42),
        Value::Str(b"spam".to_vec()),
        Value::List(vec![]),
    ]);

    let encoded = bencoding::to_bytes(&value);
    let decoded = bencoding::from_bytes(&encoded).unwrap();

    assert_eq!(value, decoded);
}

#[test]
fn encode_nested_lists_round_trip() {
    let vec: Vec<Vec<i64>> = vec![vec![7, 2], vec![12, 53]];
    let encoded = bencoding::to_string(&vec).unwrap();

    assert_eq!("lli7ei2eeli12ei53eee", encoded);

    let decoded: Vec<Vec<i64>> = bencoding::from_str(&encoded).unwrap();

    assert_eq!(vec, decoded);
}

#[test]
fn encode_signed_minimum() {
    // The most negative machine integer still encodes canonically; its
    // magnitude is one past what the decoder accepts, so it is the one
    // value that does not come back.
    let integer: i64 = i64::MIN;

    assert_eq!("i-9223372036854775808e", bencoding::to_string(&integer).unwrap());

    let back: Result<i64, _> = bencoding::from_str("i-9223372036854775808e");

    assert_eq!(Err(bencoding::DeBencodingError::ParseIntError), back);
}
