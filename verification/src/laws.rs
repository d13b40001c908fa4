//! The format's global laws, proved once over the mathematical model:
//! decoding a canonical encoding gives back the value it encodes, and a
//! dictionary's encoding is independent of the order its pairs arrived.

use vstd::prelude::*;
use crate::bytes::{
    dec_digits, is_digit_byte, lemma_dec_digits_are_digits, lemma_digit_run_len_from,
    lemma_digits_val_dec_digits,
};
use crate::de::{
    spec_decode_int, spec_decode_items, spec_decode_pairs, spec_decode_str, spec_decode_value,
    spec_read_integer,
};
use crate::dict::{lemma_spec_sort_of_sorted, sorted_pair_keys};
use crate::err::DeBencodingError;
use crate::ser::{
    spec_encode, spec_encode_bytes, spec_encode_items, spec_encode_pairs, spec_int_digits,
};
use crate::value::SpecValue;

verus! {

/// A value the wire format can represent and give back unchanged: its
/// integers fit the engine's width on both sides of zero, its string
/// lengths fit a length field, and its dictionaries are key-sorted, as
/// the dictionary container keeps them.
pub open spec fn wf_value(v: SpecValue) -> bool
    decreases v,
{
    match v {
        SpecValue::Int(i) => -(i64::MAX as int) <= i <= i64::MAX as int,
        SpecValue::Str(b) => b.len() <= usize::MAX as nat,
        SpecValue::List(items) => wf_items(items),
        SpecValue::Dict(pairs) => sorted_pair_keys(pairs) && wf_pairs(pairs),
    }
}

/// Every item of a list is representable.
pub open spec fn wf_items(items: Seq<SpecValue>) -> bool
    decreases items,
{
    if items.len() == 0 {
        true
    } else {
        wf_value(items[0]) && wf_items(items.drop_first())
    }
}

/// Every key of a dictionary fits a length field, and every value is
/// representable.
pub open spec fn wf_pairs(pairs: Seq<(Seq<u8>, SpecValue)>) -> bool
    decreases pairs,
{
    if pairs.len() == 0 {
        true
    } else {
        pairs[0].0.len() <= usize::MAX as nat && wf_value(pairs[0].1) && wf_pairs(
            pairs.drop_first(),
        )
    }
}

/// An encoding is never empty, and its first byte names its shape: a
/// digit for strings, the tag byte for the other three. No encoding
/// starts with the closing tag `e`.
pub proof fn lemma_encode_first_byte(v: SpecValue)
    ensures
        spec_encode(v).len() >= 1,
        v is Int ==> spec_encode(v)[0] == 105,
        v is Str ==> is_digit_byte(spec_encode(v)[0]),
        v is List ==> spec_encode(v)[0] == 108,
        v is Dict ==> spec_encode(v)[0] == 100,
        spec_encode(v)[0] != 101,
{
    match v {
        SpecValue::Str(b) => {
            lemma_dec_digits_are_digits(b.len());
            assert(spec_encode(v)[0] == dec_digits(b.len())[0]);
        },
        _ => {},
    }
}

/// Decoding the frame of a canonical digit run gives its value back.
pub(crate) proof fn lemma_read_integer_digits(m: nat, limit: nat, rest: Seq<u8>)
    requires
        m <= limit,
        rest.len() >= 1,
        !is_digit_byte(rest[0]),
    ensures
        spec_read_integer(dec_digits(m) + rest, limit) == Ok::<(nat, int), DeBencodingError>(
            (m, dec_digits(m).len() as int),
        ),
{
    let s = dec_digits(m) + rest;
    let d = dec_digits(m).len() as int;
    lemma_dec_digits_are_digits(m);
    assert forall|j: int| 0 <= j < d implies is_digit_byte(#[trigger] s[j]) by {
        assert(s[j] == dec_digits(m)[j]);
    }
    assert(s[d] == rest[0]);
    lemma_digit_run_len_from(s, d);
    assert(s.subrange(0, d) =~= dec_digits(m));
    lemma_digits_val_dec_digits(m);
}

/// Decoding a canonical integer frame gives the integer back.
pub(crate) proof fn lemma_decode_int_encode(i: int, rest: Seq<u8>)
    requires
        -(i64::MAX as int) <= i <= i64::MAX as int,
    ensures
        spec_decode_int(seq![105u8] + spec_int_digits(i) + seq![101u8] + rest) == Ok::<
            (int, int),
            DeBencodingError,
        >((i, 2 + spec_int_digits(i).len() as int)),
{
    let s = seq![105u8] + spec_int_digits(i) + seq![101u8] + rest;
    let m: nat = if i < 0 {
        (-i) as nat
    } else {
        i as nat
    };
    lemma_dec_digits_are_digits(m);
    let t = s.drop_first();
    if i < 0 {
        assert(t[0] == 45);
        let u = t.drop_first();
        assert(u =~= dec_digits(m) + (seq![101u8] + rest));
        lemma_read_integer_digits(m, i64::MAX as nat, seq![101u8] + rest);
        assert(u[dec_digits(m).len() as int] == 101);
    } else {
        assert(t[0] == dec_digits(m)[0]);
        assert(is_digit_byte(t[0]));
        assert(t[0] != 45);
        assert(t =~= dec_digits(m) + (seq![101u8] + rest));
        lemma_read_integer_digits(m, i64::MAX as nat, seq![101u8] + rest);
        assert(t[dec_digits(m).len() as int] == 101);
    }
}

/// Decoding a canonical string frame gives the bytes back.
pub(crate) proof fn lemma_decode_str_encode(b: Seq<u8>, rest: Seq<u8>)
    requires
        b.len() <= usize::MAX as nat,
    ensures
        spec_decode_str(spec_encode_bytes(b) + rest) == Ok::<(Seq<u8>, int), DeBencodingError>(
            (b, spec_encode_bytes(b).len() as int),
        ),
{
    let s = spec_encode_bytes(b) + rest;
    let l = b.len();
    assert(s =~= dec_digits(l) + (seq![58u8] + b + rest));
    lemma_read_integer_digits(l, usize::MAX as nat, seq![58u8] + b + rest);
    let run = dec_digits(l).len() as int;
    assert(s[run] == 58);
    assert(s.len() - run - 1 == b.len() + rest.len());
    assert(s.subrange(run + 1, run + 1 + l as int) =~= b);
}

/// **Round-trip law.** Decoding the canonical encoding of any
/// representable value, with any trailing bytes behind it, yields that
/// very value and consumes exactly the encoding.
pub proof fn lemma_round_trip(v: SpecValue, rest: Seq<u8>)
    requires
        wf_value(v),
    ensures
        spec_decode_value(spec_encode(v) + rest) == Ok::<(SpecValue, int), DeBencodingError>(
            (v, spec_encode(v).len() as int),
        ),
    decreases v,
{
    let s = spec_encode(v) + rest;
    lemma_encode_first_byte(v);
    match v {
        SpecValue::Int(i) => {
            assert(s[0] == 105);
            assert(!is_digit_byte(s[0]));
            assert(s =~= seq![105u8] + spec_int_digits(i) + seq![101u8] + rest);
            lemma_decode_int_encode(i, rest);
        },
        SpecValue::Str(b) => {
            assert(is_digit_byte(s[0]));
            lemma_decode_str_encode(b, rest);
        },
        SpecValue::List(items) => {
            assert(s[0] == 108);
            assert(s.drop_first() =~= spec_encode_items(items) + seq![101u8] + rest);
            lemma_round_trip_items(items, rest);
        },
        SpecValue::Dict(pairs) => {
            assert(s[0] == 100);
            assert(s.drop_first() =~= spec_encode_pairs(pairs) + seq![101u8] + rest);
            lemma_round_trip_pairs(pairs, rest);
            lemma_spec_sort_of_sorted(pairs);
        },
    }
}

/// The round-trip law at the whole-input entry points: the canonical
/// encoding of a representable value, decoded on its own, yields that
/// very value and consumes the entire input — so decoding never earns
/// a `TrailingCharacters` failure on bytes the encoder produced.
pub proof fn lemma_whole_round_trip(v: SpecValue)
    requires
        wf_value(v),
    ensures
        spec_decode_value(spec_encode(v)) == Ok::<(SpecValue, int), DeBencodingError>(
            (v, spec_encode(v).len() as int),
        ),
{
    lemma_round_trip(v, Seq::empty());
    assert(spec_encode(v) + Seq::<u8>::empty() =~= spec_encode(v));
}

/// Round trip for a run of list items followed by the closing tag.
proof fn lemma_round_trip_items(items: Seq<SpecValue>, rest: Seq<u8>)
    requires
        wf_items(items),
    ensures
        spec_decode_items(spec_encode_items(items) + seq![101u8] + rest) == Ok::<
            (Seq<SpecValue>, int),
            DeBencodingError,
        >((items, spec_encode_items(items).len() as int + 1)),
    decreases items,
{
    let s = spec_encode_items(items) + seq![101u8] + rest;
    if items.len() == 0 {
        assert(items =~= Seq::<SpecValue>::empty());
        assert(s[0] == 101);
    } else {
        let v0 = items[0];
        let e0 = spec_encode(v0);
        lemma_encode_first_byte(v0);
        assert(s[0] == e0[0]);
        assert(s[0] != 101);
        let rest0 = spec_encode_items(items.drop_first()) + seq![101u8] + rest;
        assert(s =~= e0 + rest0);
        lemma_round_trip(v0, rest0);
        let n0 = e0.len() as int;
        assert(1 <= n0 <= s.len());
        assert(s.skip(n0) =~= rest0);
        lemma_round_trip_items(items.drop_first(), rest);
        assert(seq![v0] + items.drop_first() =~= items);
        assert(spec_encode_items(items) =~= e0 + spec_encode_items(items.drop_first()));
        assert(spec_decode_value(s) == Ok::<(SpecValue, int), DeBencodingError>((v0, n0)));
        assert(spec_decode_items(s.skip(n0)) == Ok::<(Seq<SpecValue>, int), DeBencodingError>(
            (items.drop_first(), spec_encode_items(items.drop_first()).len() as int + 1),
        ));
    }
}

/// Round trip for a run of dictionary pairs followed by the closing
/// tag.
#[verifier::rlimit(50)]
pub(crate) proof fn lemma_round_trip_pairs(pairs: Seq<(Seq<u8>, SpecValue)>, rest: Seq<u8>)
    requires
        wf_pairs(pairs),
    ensures
        spec_decode_pairs(spec_encode_pairs(pairs) + seq![101u8] + rest) == Ok::<
            (Seq<(Seq<u8>, SpecValue)>, int),
            DeBencodingError,
        >((pairs, spec_encode_pairs(pairs).len() as int + 1)),
    decreases pairs,
{
    let s = spec_encode_pairs(pairs) + seq![101u8] + rest;
    if pairs.len() == 0 {
        assert(pairs =~= Seq::<(Seq<u8>, SpecValue)>::empty());
        assert(s[0] == 101);
    } else {
        let key = pairs[0].0;
        let v0 = pairs[0].1;
        let ek = spec_encode_bytes(key);
        let ev = spec_encode(v0);
        crate::bytes::lemma_dec_digits_are_digits(key.len());
        assert(s[0] == dec_digits(key.len())[0]) by {
            assert(s[0] == ek[0]);
        }
        assert(is_digit_byte(s[0]));
        assert(s[0] != 101);
        let rest_k = ev + spec_encode_pairs(pairs.drop_first()) + seq![101u8] + rest;
        assert(s =~= ek + rest_k);
        lemma_decode_str_encode(key, rest_k);
        let n = ek.len() as int;
        assert(1 <= n <= s.len());
        assert(s.skip(n) =~= rest_k);
        let rest_v = spec_encode_pairs(pairs.drop_first()) + seq![101u8] + rest;
        assert(rest_k =~= ev + rest_v);
        lemma_round_trip(v0, rest_v);
        let k = ev.len() as int;
        assert(1 <= k <= s.len() - n);
        assert(s.skip(n + k) =~= rest_v);
        lemma_round_trip_pairs(pairs.drop_first(), rest);
        assert(seq![(key, v0)] + pairs.drop_first() =~= pairs);
        assert(spec_encode_pairs(pairs) =~= ek + ev + spec_encode_pairs(pairs.drop_first()));
        assert(spec_decode_str(s) == Ok::<(Seq<u8>, int), DeBencodingError>((key, n)));
        assert(spec_decode_value(s.skip(n)) == Ok::<(SpecValue, int), DeBencodingError>((v0, k)));
        assert(spec_decode_pairs(s.skip(n + k)) == Ok::<
            (Seq<(Seq<u8>, SpecValue)>, int),
            DeBencodingError,
        >((pairs.drop_first(), spec_encode_pairs(pairs.drop_first()).len() as int + 1)));
    }
}

} // verus!
