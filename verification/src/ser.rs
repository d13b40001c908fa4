//! The encode engine: walks a [`Value`] tree and emits its canonical
//! wire bytes through the primitive encoders.

pub mod err;

use vstd::prelude::*;
use crate::bytes::{dec_digits, u64_to_digits};
use crate::err::DeBencodingError;
use crate::value::{model_items, SpecValue, Value};
use vstd::utf8::{decode_utf8, valid_utf8};

verus! {

/// The wire bytes of a byte string: decimal length, a colon, the raw
/// bytes themselves.
pub open spec fn spec_encode_bytes(b: Seq<u8>) -> Seq<u8> {
    dec_digits(b.len()) + seq![58u8] + b
}

/// The decimal digits of an integer, a minus sign first when negative;
/// zero renders as `0`, never as `-0`.
pub open spec fn spec_int_digits(i: int) -> Seq<u8> {
    if i < 0 {
        seq![45u8] + dec_digits((-i) as nat)
    } else {
        dec_digits(i as nat)
    }
}

/// The canonical encoding of a value: the unique byte-exact rendering
/// with no leading zeros, no `-0`, and dictionary pairs in the order
/// they stand (the dictionary container keeps them key-sorted).
pub open spec fn spec_encode(v: SpecValue) -> Seq<u8>
    decreases v,
{
    match v {
        SpecValue::Int(i) => seq![105u8] + spec_int_digits(i) + seq![101u8],
        SpecValue::Str(b) => spec_encode_bytes(b),
        SpecValue::List(items) => seq![108u8] + spec_encode_items(items) + seq![101u8],
        SpecValue::Dict(pairs) => seq![100u8] + spec_encode_pairs(pairs) + seq![101u8],
    }
}

/// The concatenated encodings of a run of list items.
pub open spec fn spec_encode_items(items: Seq<SpecValue>) -> Seq<u8>
    decreases items,
{
    if items.len() == 0 {
        Seq::empty()
    } else {
        spec_encode(items[0]) + spec_encode_items(items.drop_first())
    }
}

/// The concatenated encodings of a run of dictionary pairs: each key
/// as a byte string, then its value.
pub open spec fn spec_encode_pairs(pairs: Seq<(Seq<u8>, SpecValue)>) -> Seq<u8>
    decreases pairs,
{
    if pairs.len() == 0 {
        Seq::empty()
    } else {
        spec_encode_bytes(pairs[0].0) + spec_encode(pairs[0].1) + spec_encode_pairs(
            pairs.drop_first(),
        )
    }
}

/// Appends a copy of `b` to `out`.
pub(crate) fn append_bytes(out: &mut Vec<u8>, b: &[u8])
    ensures
        final(out)@ == old(out)@ + b@,
{
    let mut k: usize = 0;
    while k < b.len()
        invariant
            k <= b.len(),
            out@ == old(out)@ + b@.subrange(0, k as int),
        decreases b.len() - k,
    {
        out.push(b[k]);
        proof {
            assert(b@.subrange(0, k + 1 as int) =~= b@.subrange(0, k as int).push(b@[k as int]));
            assert(out@ =~= old(out)@ + b@.subrange(0, k + 1 as int));
        }
        k = k + 1;
    }
    proof {
        assert(b@.subrange(0, b@.len() as int) =~= b@);
    }
}

/// Appends the decimal digits of `n` to `out`.
pub(crate) fn append_u64_digits(n: u64, out: &mut Vec<u8>)
    ensures
        final(out)@ == old(out)@ + dec_digits(n as nat),
{
    let mut digits = u64_to_digits(n);
    out.append(&mut digits);
}

/// Appends the byte-string frame of `b` to `out`: length, colon, bytes.
pub(crate) fn append_bytes_frame(out: &mut Vec<u8>, b: &[u8])
    ensures
        final(out)@ == old(out)@ + spec_encode_bytes(b@),
{
    append_u64_digits(b.len() as u64, out);
    out.push(58);
    append_bytes(out, b);
    proof {
        assert(out@ =~= old(out)@ + spec_encode_bytes(b@));
    }
}

/// Appends the digits of `i`, sign first when negative; the value zero
/// is rendered `0`, never `-0`.
pub(crate) fn append_int_digits(i: i64, out: &mut Vec<u8>)
    ensures
        final(out)@ == old(out)@ + spec_int_digits(i as int),
{
    if i >= 0 {
        append_u64_digits(i as u64, out);
    } else {
        out.push(45);
        let mag: u64 = ((-(i + 1)) as u64) + 1;
        proof {
            assert(mag as int == -(i as int));
        }
        append_u64_digits(mag, out);
        proof {
            assert(out@ =~= old(out)@ + spec_int_digits(i as int));
        }
    }
}

/// Appends the canonical encoding of `v` to `out`.
pub fn encode_value(v: &Value, out: &mut Vec<u8>)
    ensures
        final(out)@ == old(out)@ + spec_encode(v.model()),
    decreases *v, 0int,
{
    match v {
        Value::Int(i) => {
            out.push(105);
            append_int_digits(*i, out);
            out.push(101);
            proof {
                assert(out@ =~= old(out)@ + spec_encode(v.model()));
            }
        },
        Value::Str(b) => {
            append_bytes_frame(out, b.as_slice());
        },
        Value::List(items) => {
            out.push(108);
            encode_items(items, 0, out);
            out.push(101);
            proof {
                assert(model_items(items@).skip(0) =~= model_items(items@));
                assert(out@ =~= old(out)@ + spec_encode(v.model()));
            }
        },
        Value::Dict(d) => {
            out.push(100);
            crate::dict::encode_pairs_onto(d, 0, out);
            out.push(101);
            proof {
                assert(d.model().skip(0) =~= d.model());
                assert(out@ =~= old(out)@ + spec_encode(v.model()));
            }
        },
    }
}

/// Appends the encodings of the items of `items` from position `i` on.
fn encode_items(items: &Vec<Value>, i: usize, out: &mut Vec<u8>)
    requires
        i <= items@.len(),
    ensures
        final(out)@ == old(out)@ + spec_encode_items(model_items(items@).skip(i as int)),
    decreases *items, items@.len() - i,
{
    proof {
        crate::value::lemma_model_items(items@);
    }
    let ghost m = model_items(items@);
    if i == items.len() {
        proof {
            assert(m.skip(i as int) =~= Seq::<SpecValue>::empty());
            assert(out@ =~= old(out)@ + spec_encode_items(m.skip(i as int)));
        }
    } else {
        encode_value(&items[i], out);
        encode_items(items, i + 1, out);
        proof {
            assert(m.skip(i as int)[0] == m[i as int]);
            assert(m.skip(i as int).drop_first() =~= m.skip(i + 1 as int));
            assert(out@ =~= old(out)@ + spec_encode_items(m.skip(i as int)));
        }
    }
}

/// Encodes a whole value as its canonical wire bytes. Encoding never
/// fails: every value of the four shapes is representable.
pub fn to_bytes(v: &Value) -> (r: Vec<u8>)
    ensures
        r@ == spec_encode(v.model()),
{
    let mut out: Vec<u8> = Vec::new();
    encode_value(v, &mut out);
    out
}

/// Renders any encodable value as a bencoded text string. The wire
/// bytes of values built from text and integers are valid UTF-8; a
/// value holding raw non-text bytes cannot be rendered as text and is
/// rejected.
pub fn to_string<T: crate::bencode::BenCodeAble>(value: &T) -> (r: Result<String, DeBencodingError>)
    ensures
        valid_utf8(T::spec_encoded(value.model())) ==> (r matches Ok(s) && s@ == decode_utf8(
            T::spec_encoded(value.model()),
        )),
        !valid_utf8(T::spec_encoded(value.model())) ==> r == Err::<String, DeBencodingError>(
            DeBencodingError::InputNotUtf8,
        ),
{
    let b = value.bencode();
    match crate::de::bytes_to_str(b.as_slice()) {
        Some(s) => Ok(s.to_owned()),
        None => Err(DeBencodingError::InputNotUtf8),
    }
}

} // verus!
