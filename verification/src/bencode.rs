//! The typed layer: the capability set through which the engine serves
//! concrete target types. A type that implements [`BenCodeAble`] states
//! its own mathematical model, the exact bytes it encodes to, and the
//! exact outcome of decoding — and proves its own round-trip law.

use vstd::prelude::*;
use vstd::string::{StringSliceAdditionalSpecFns, StrSliceExecFns};
use vstd::utf8::{decode_utf8, encode_utf8, valid_utf8};
use crate::bytes::dec_digits;
use crate::de::{
    spec_decode_pairs, spec_decode_value, spec_parse_signed, spec_parse_str, spec_parse_unsigned,
    Deserializer as ByteDeserializer,
};
use crate::dict::{sorted_pair_keys, spec_sort_pairs, Dict};
use crate::err::DeBencodingError;
use crate::laws::{wf_pairs, wf_value};
use crate::ser::{spec_encode, spec_encode_bytes, spec_encode_pairs, spec_int_digits};
use crate::value::{SpecValue, Value};

verus! {

/// A type's ability to be carried by the wire format.
///
/// Implementors name their mathematical model, the canonical bytes a
/// model encodes to, and — byte for byte — what decoding yields; the
/// engine then serves them through [`de_bencode`](Self::de_bencode)
/// without knowing them concretely. Every implementor also proves the
/// round-trip law for its own shape.
pub trait BenCodeAble: Sized {
    /// The mathematical model of values of this type.
    type Model;

    /// The model of this value.
    spec fn model(&self) -> Self::Model;

    /// The models that values of this type can represent and give
    /// back: the inputs of the round-trip law.
    spec fn wf_model(m: Self::Model) -> bool;

    /// The canonical wire bytes of a model.
    spec fn spec_encoded(m: Self::Model) -> Seq<u8>;

    /// What decoding yields on the given bytes: the model read and
    /// the count of bytes consumed, or the error earned.
    spec fn spec_parse(s: Seq<u8>) -> Result<(Self::Model, int), DeBencodingError>;

    /// A successful parse consumes at least one byte and never more
    /// than the buffer holds.
    proof fn lemma_parse_consumes(s: Seq<u8>)
        ensures
            Self::spec_parse(s) matches Ok(p) ==> 1 <= p.1 <= s.len(),
    ;

    /// An encoding is never empty and never starts with the closing
    /// tag, so a run of encodings inside a container is
    /// self-delimiting.
    proof fn lemma_encoded_shape(m: Self::Model)
        requires
            Self::wf_model(m),
        ensures
            Self::spec_encoded(m).len() >= 1,
            Self::spec_encoded(m)[0] != 101,
    ;

    /// **Round-trip law.** Parsing the canonical encoding of any
    /// representable model, whatever bytes follow it, yields that very
    /// model and consumes exactly the encoding.
    proof fn lemma_round_trip(m: Self::Model, rest: Seq<u8>)
        requires
            Self::wf_model(m),
        ensures
            Self::spec_parse(Self::spec_encoded(m) + rest) == Ok::<
                (Self::Model, int),
                DeBencodingError,
            >((m, Self::spec_encoded(m).len() as int)),
    ;

    /// Renders this value as its canonical wire bytes.
    fn bencode(&self) -> (r: Vec<u8>)
        ensures
            r@ == Self::spec_encoded(self.model()),
    ;

    /// Reads one value of this type at the cursor.
    fn de_bencode(d: &mut ByteDeserializer<'_>) -> (r: Result<Self, DeBencodingError>)
        ensures
            final(d).bytes() == old(d).bytes(),
            match Self::spec_parse(old(d).remaining()) {
                Ok(p) => r matches Ok(v) && v.model() == p.0 && final(d).pos() == old(d).pos()
                    + p.1,
                Err(e) => r == Err::<Self, DeBencodingError>(e),
            },
    ;
}

impl BenCodeAble for i64 {
    type Model = int;

    open spec fn model(&self) -> int {
        *self as int
    }

    open spec fn wf_model(m: int) -> bool {
        -(i64::MAX as int) <= m <= i64::MAX as int
    }

    open spec fn spec_encoded(m: int) -> Seq<u8> {
        seq![105u8] + spec_int_digits(m) + seq![101u8]
    }

    open spec fn spec_parse(s: Seq<u8>) -> Result<(int, int), DeBencodingError> {
        spec_parse_signed(s)
    }

    proof fn lemma_parse_consumes(s: Seq<u8>) {
        if s.len() > 0 && s[0] == 105 {
            crate::bytes::lemma_digit_run_len_bounds(s.drop_first());
            crate::bytes::lemma_digit_run_len_bounds(s.drop_first().drop_first());
        }
    }

    proof fn lemma_encoded_shape(m: int) {
        assert(Self::spec_encoded(m)[0] == 105);
    }

    proof fn lemma_round_trip(m: int, rest: Seq<u8>) {
        let e = Self::spec_encoded(m);
        assert(e[0] == 105);
        assert((e + rest)[0] == 105);
        assert(e + rest =~= seq![105u8] + spec_int_digits(m) + seq![101u8] + rest);
        crate::laws::lemma_decode_int_encode(m, rest);
    }

    fn bencode(&self) -> (r: Vec<u8>) {
        let mut out: Vec<u8> = Vec::new();
        out.push(105);
        crate::ser::append_int_digits(*self, &mut out);
        out.push(101);
        proof {
            assert(out@ =~= seq![105u8] + spec_int_digits(*self as int) + seq![101u8]);
        }
        out
    }

    fn de_bencode(d: &mut ByteDeserializer<'_>) -> (r: Result<i64, DeBencodingError>) {
        d.parse_signed()
    }
}

impl BenCodeAble for u64 {
    type Model = int;

    open spec fn model(&self) -> int {
        *self as int
    }

    open spec fn wf_model(m: int) -> bool {
        0 <= m <= u64::MAX as int
    }

    open spec fn spec_encoded(m: int) -> Seq<u8> {
        seq![105u8] + dec_digits(m as nat) + seq![101u8]
    }

    open spec fn spec_parse(s: Seq<u8>) -> Result<(int, int), DeBencodingError> {
        match spec_parse_unsigned(s) {
            Ok((m, n)) => Ok((m as int, n)),
            Err(e) => Err(e),
        }
    }

    proof fn lemma_parse_consumes(s: Seq<u8>) {
        if s.len() > 0 && s[0] == 105 {
            crate::bytes::lemma_digit_run_len_bounds(s.drop_first());
        }
    }

    proof fn lemma_encoded_shape(m: int) {
        assert(Self::spec_encoded(m)[0] == 105);
    }

    proof fn lemma_round_trip(m: int, rest: Seq<u8>) {
        let e = Self::spec_encoded(m);
        assert(e[0] == 105);
        assert((e + rest)[0] == 105);
        let t = (e + rest).drop_first();
        assert(t =~= dec_digits(m as nat) + (seq![101u8] + rest));
        crate::laws::lemma_read_integer_digits(m as nat, u64::MAX as nat, seq![101u8] + rest);
        crate::bytes::lemma_dec_digits_are_digits(m as nat);
        assert(t[dec_digits(m as nat).len() as int] == 101);
    }

    fn bencode(&self) -> (r: Vec<u8>) {
        let mut out: Vec<u8> = Vec::new();
        out.push(105);
        crate::ser::append_u64_digits(*self, &mut out);
        out.push(101);
        proof {
            assert(out@ =~= seq![105u8] + dec_digits(*self as nat) + seq![101u8]);
        }
        out
    }

    fn de_bencode(d: &mut ByteDeserializer<'_>) -> (r: Result<u64, DeBencodingError>) {
        d.parse_unsigned()
    }
}

impl BenCodeAble for String {
    type Model = Seq<char>;

    open spec fn model(&self) -> Seq<char> {
        self@
    }

    open spec fn wf_model(m: Seq<char>) -> bool {
        encode_utf8(m).len() <= usize::MAX as nat
    }

    open spec fn spec_encoded(m: Seq<char>) -> Seq<u8> {
        spec_encode_bytes(encode_utf8(m))
    }

    open spec fn spec_parse(s: Seq<u8>) -> Result<(Seq<char>, int), DeBencodingError> {
        spec_parse_str(s)
    }

    proof fn lemma_parse_consumes(s: Seq<u8>) {
        crate::bytes::lemma_digit_run_len_bounds(s);
    }

    proof fn lemma_encoded_shape(m: Seq<char>) {
        crate::bytes::lemma_dec_digits_are_digits(encode_utf8(m).len());
        assert(Self::spec_encoded(m)[0] == dec_digits(encode_utf8(m).len())[0]);
    }

    proof fn lemma_round_trip(m: Seq<char>, rest: Seq<u8>) {
        crate::laws::lemma_decode_str_encode(encode_utf8(m), rest);
        vstd::utf8::encode_utf8_valid_utf8(m);
        vstd::utf8::encode_utf8_decode_utf8(m);
    }

    fn bencode(&self) -> (r: Vec<u8>) {
        let b: &[u8] = self.as_str().as_bytes();
        let mut out: Vec<u8> = Vec::new();
        crate::ser::append_bytes_frame(&mut out, b);
        proof {
            assert(out@ =~= spec_encode_bytes(encode_utf8(self@)));
        }
        out
    }

    fn de_bencode(d: &mut ByteDeserializer<'_>) -> (r: Result<String, DeBencodingError>) {
        match d.parse_str() {
            Ok(s) => Ok(s.to_owned()),
            Err(e) => Err(e),
        }
    }
}

impl BenCodeAble for Value {
    type Model = SpecValue;

    open spec fn model(&self) -> SpecValue {
        Value::model(*self)
    }

    open spec fn wf_model(m: SpecValue) -> bool {
        wf_value(m)
    }

    open spec fn spec_encoded(m: SpecValue) -> Seq<u8> {
        spec_encode(m)
    }

    open spec fn spec_parse(s: Seq<u8>) -> Result<(SpecValue, int), DeBencodingError> {
        spec_decode_value(s)
    }

    proof fn lemma_parse_consumes(s: Seq<u8>) {
        crate::de::lemma_spec_decode_consumed(s);
    }

    proof fn lemma_encoded_shape(m: SpecValue) {
        crate::laws::lemma_encode_first_byte(m);
    }

    proof fn lemma_round_trip(m: SpecValue, rest: Seq<u8>) {
        crate::laws::lemma_round_trip(m, rest);
    }

    fn bencode(&self) -> (r: Vec<u8>) {
        crate::ser::to_bytes(self)
    }

    fn de_bencode(d: &mut ByteDeserializer<'_>) -> (r: Result<Value, DeBencodingError>) {
        d.parse_value()
    }
}

impl BenCodeAble for Dict {
    type Model = Seq<(Seq<u8>, SpecValue)>;

    open spec fn model(&self) -> Seq<(Seq<u8>, SpecValue)> {
        Dict::model(*self)
    }

    open spec fn wf_model(m: Seq<(Seq<u8>, SpecValue)>) -> bool {
        sorted_pair_keys(m) && wf_pairs(m)
    }

    open spec fn spec_encoded(m: Seq<(Seq<u8>, SpecValue)>) -> Seq<u8> {
        seq![100u8] + spec_encode_pairs(m) + seq![101u8]
    }

    open spec fn spec_parse(s: Seq<u8>) -> Result<
        (Seq<(Seq<u8>, SpecValue)>, int),
        DeBencodingError,
    > {
        if s.len() == 0 {
            Err(DeBencodingError::Eof)
        } else if s[0] != 100 {
            Err(DeBencodingError::NoFoundOpeningDeliminator)
        } else {
            match spec_decode_pairs(s.drop_first()) {
                Ok((ps, n)) => Ok((spec_sort_pairs(ps), 1 + n)),
                Err(e) => Err(e),
            }
        }
    }

    proof fn lemma_parse_consumes(s: Seq<u8>) {
        if s.len() > 0 && s[0] == 100 {
            crate::de::lemma_spec_decode_pairs_consumed(s.drop_first());
        }
    }

    proof fn lemma_encoded_shape(m: Seq<(Seq<u8>, SpecValue)>) {
        assert(Self::spec_encoded(m)[0] == 100);
    }

    proof fn lemma_round_trip(m: Seq<(Seq<u8>, SpecValue)>, rest: Seq<u8>) {
        let e = Self::spec_encoded(m);
        assert((e + rest)[0] == 100);
        assert((e + rest).drop_first() =~= spec_encode_pairs(m) + seq![101u8] + rest);
        crate::laws::lemma_round_trip_pairs(m, rest);
        crate::dict::lemma_spec_sort_of_sorted(m);
    }

    fn bencode(&self) -> (r: Vec<u8>) {
        let mut out: Vec<u8> = Vec::new();
        out.push(100);
        crate::dict::encode_pairs_onto(self, 0, &mut out);
        out.push(101);
        proof {
            assert(Dict::model(*self).skip(0) =~= Dict::model(*self));
            assert(out@ =~= seq![100u8] + spec_encode_pairs(Dict::model(*self)) + seq![101u8]);
        }
        out
    }

    fn de_bencode(d: &mut ByteDeserializer<'_>) -> (r: Result<Dict, DeBencodingError>) {
        proof {
            use_type_invariant(&*d);
        }
        let ghost s = d.remaining();
        let b = match d.read_byte() {
            Ok(b) => b,
            Err(e) => {
                return Err(e);
            },
        };
        if b != 100 {
            return Err(DeBencodingError::NoFoundOpeningDeliminator);
        }
        proof {
            assert(d.remaining() =~= s.drop_first());
        }
        let pairs = match d.parse_pairs() {
            Ok(ps) => ps,
            Err(e) => {
                return Err(e);
            },
        };
        let ghost raw = crate::value::model_pairs(pairs@);
        let sorted = crate::dict::sort_pair_vec(pairs);
        proof {
            crate::dict::lemma_spec_sort_sorted(raw);
        }
        Ok(Dict::from_sorted(sorted))
    }
}


/// What reading a signed integer frame into a narrower width yields:
/// as the engine's signed read, with values outside `lo..=hi` rejected
/// as unparsable for that width.
pub open spec fn spec_parse_signed_width(s: Seq<u8>, lo: int, hi: int) -> Result<
    (int, int),
    DeBencodingError,
> {
    match spec_parse_signed(s) {
        Ok((v, n)) => {
            if lo <= v <= hi {
                Ok((v, n))
            } else {
                Err(DeBencodingError::ParseIntError)
            }
        },
        Err(e) => Err(e),
    }
}

/// What reading an unsigned integer frame into a narrower width
/// yields, with values above `hi` rejected.
pub open spec fn spec_parse_unsigned_width(s: Seq<u8>, hi: int) -> Result<
    (int, int),
    DeBencodingError,
> {
    match spec_parse_unsigned(s) {
        Ok((v, n)) => {
            if v <= hi {
                Ok((v as int, n))
            } else {
                Err(DeBencodingError::ParseIntError)
            }
        },
        Err(e) => Err(e),
    }
}

/// Reads a signed integer frame and demands that its value fits the
/// caller's width.
fn parse_signed_in(d: &mut ByteDeserializer<'_>, lo: i64, hi: i64) -> (r: Result<
    i64,
    DeBencodingError,
>)
    ensures
        final(d).bytes() == old(d).bytes(),
        match spec_parse_signed_width(old(d).remaining(), lo as int, hi as int) {
            Ok(p) => r matches Ok(v) && v as int == p.0 && final(d).pos() == old(d).pos() + p.1,
            Err(e) => r == Err::<i64, DeBencodingError>(e),
        },
{
    let v = match d.parse_signed() {
        Ok(v) => v,
        Err(e) => {
            return Err(e);
        },
    };
    if lo <= v && v <= hi {
        Ok(v)
    } else {
        Err(DeBencodingError::ParseIntError)
    }
}

/// Reads an unsigned integer frame and demands that its value fits the
/// caller's width.
fn parse_unsigned_in(d: &mut ByteDeserializer<'_>, hi: u64) -> (r: Result<u64, DeBencodingError>)
    ensures
        final(d).bytes() == old(d).bytes(),
        match spec_parse_unsigned_width(old(d).remaining(), hi as int) {
            Ok(p) => r matches Ok(v) && v as int == p.0 && final(d).pos() == old(d).pos() + p.1,
            Err(e) => r == Err::<u64, DeBencodingError>(e),
        },
{
    let v = match d.parse_unsigned() {
        Ok(v) => v,
        Err(e) => {
            return Err(e);
        },
    };
    if v <= hi {
        Ok(v)
    } else {
        Err(DeBencodingError::ParseIntError)
    }
}

/// Round trip for a signed width: the canonical integer frame of a
/// value inside the width reads back unchanged.
proof fn lemma_round_trip_signed_width(m: int, lo: int, hi: int, rest: Seq<u8>)
    requires
        lo <= m <= hi,
        -(i64::MAX as int) <= lo,
        hi <= i64::MAX as int,
    ensures
        spec_parse_signed_width(
            seq![105u8] + spec_int_digits(m) + seq![101u8] + rest,
            lo,
            hi,
        ) == Ok::<(int, int), DeBencodingError>(
            (m, 2 + spec_int_digits(m).len() as int),
        ),
{
    let e = seq![105u8] + spec_int_digits(m) + seq![101u8] + rest;
    assert(e[0] == 105);
    crate::laws::lemma_decode_int_encode(m, rest);
}

impl BenCodeAble for i32 {
    type Model = int;

    open spec fn model(&self) -> int {
        *self as int
    }

    open spec fn wf_model(m: int) -> bool {
        i32::MIN as int <= m <= i32::MAX as int
    }

    open spec fn spec_encoded(m: int) -> Seq<u8> {
        seq![105u8] + spec_int_digits(m) + seq![101u8]
    }

    open spec fn spec_parse(s: Seq<u8>) -> Result<(int, int), DeBencodingError> {
        spec_parse_signed_width(s, i32::MIN as int, i32::MAX as int)
    }

    proof fn lemma_parse_consumes(s: Seq<u8>) {
        <i64 as BenCodeAble>::lemma_parse_consumes(s);
    }

    proof fn lemma_encoded_shape(m: int) {
        assert(Self::spec_encoded(m)[0] == 105);
    }

    proof fn lemma_round_trip(m: int, rest: Seq<u8>) {
        lemma_round_trip_signed_width(m, i32::MIN as int, i32::MAX as int, rest);
    }

    fn bencode(&self) -> (r: Vec<u8>) {
        let mut out: Vec<u8> = Vec::new();
        out.push(105);
        crate::ser::append_int_digits(*self as i64, &mut out);
        out.push(101);
        proof {
            assert(out@ =~= seq![105u8] + spec_int_digits(*self as int) + seq![101u8]);
        }
        out
    }

    fn de_bencode(d: &mut ByteDeserializer<'_>) -> (r: Result<i32, DeBencodingError>) {
        match parse_signed_in(d, i32::MIN as i64, i32::MAX as i64) {
            Ok(v) => Ok(v as i32),
            Err(e) => Err(e),
        }
    }
}

impl BenCodeAble for i16 {
    type Model = int;

    open spec fn model(&self) -> int {
        *self as int
    }

    open spec fn wf_model(m: int) -> bool {
        i16::MIN as int <= m <= i16::MAX as int
    }

    open spec fn spec_encoded(m: int) -> Seq<u8> {
        seq![105u8] + spec_int_digits(m) + seq![101u8]
    }

    open spec fn spec_parse(s: Seq<u8>) -> Result<(int, int), DeBencodingError> {
        spec_parse_signed_width(s, i16::MIN as int, i16::MAX as int)
    }

    proof fn lemma_parse_consumes(s: Seq<u8>) {
        <i64 as BenCodeAble>::lemma_parse_consumes(s);
    }

    proof fn lemma_encoded_shape(m: int) {
        assert(Self::spec_encoded(m)[0] == 105);
    }

    proof fn lemma_round_trip(m: int, rest: Seq<u8>) {
        lemma_round_trip_signed_width(m, i16::MIN as int, i16::MAX as int, rest);
    }

    fn bencode(&self) -> (r: Vec<u8>) {
        let mut out: Vec<u8> = Vec::new();
        out.push(105);
        crate::ser::append_int_digits(*self as i64, &mut out);
        out.push(101);
        proof {
            assert(out@ =~= seq![105u8] + spec_int_digits(*self as int) + seq![101u8]);
        }
        out
    }

    fn de_bencode(d: &mut ByteDeserializer<'_>) -> (r: Result<i16, DeBencodingError>) {
        match parse_signed_in(d, i16::MIN as i64, i16::MAX as i64) {
            Ok(v) => Ok(v as i16),
            Err(e) => Err(e),
        }
    }
}

impl BenCodeAble for i8 {
    type Model = int;

    open spec fn model(&self) -> int {
        *self as int
    }

    open spec fn wf_model(m: int) -> bool {
        i8::MIN as int <= m <= i8::MAX as int
    }

    open spec fn spec_encoded(m: int) -> Seq<u8> {
        seq![105u8] + spec_int_digits(m) + seq![101u8]
    }

    open spec fn spec_parse(s: Seq<u8>) -> Result<(int, int), DeBencodingError> {
        spec_parse_signed_width(s, i8::MIN as int, i8::MAX as int)
    }

    proof fn lemma_parse_consumes(s: Seq<u8>) {
        <i64 as BenCodeAble>::lemma_parse_consumes(s);
    }

    proof fn lemma_encoded_shape(m: int) {
        assert(Self::spec_encoded(m)[0] == 105);
    }

    proof fn lemma_round_trip(m: int, rest: Seq<u8>) {
        lemma_round_trip_signed_width(m, i8::MIN as int, i8::MAX as int, rest);
    }

    fn bencode(&self) -> (r: Vec<u8>) {
        let mut out: Vec<u8> = Vec::new();
        out.push(105);
        crate::ser::append_int_digits(*self as i64, &mut out);
        out.push(101);
        proof {
            assert(out@ =~= seq![105u8] + spec_int_digits(*self as int) + seq![101u8]);
        }
        out
    }

    fn de_bencode(d: &mut ByteDeserializer<'_>) -> (r: Result<i8, DeBencodingError>) {
        match parse_signed_in(d, i8::MIN as i64, i8::MAX as i64) {
            Ok(v) => Ok(v as i8),
            Err(e) => Err(e),
        }
    }
}

impl BenCodeAble for u32 {
    type Model = int;

    open spec fn model(&self) -> int {
        *self as int
    }

    open spec fn wf_model(m: int) -> bool {
        0 <= m <= u32::MAX as int
    }

    open spec fn spec_encoded(m: int) -> Seq<u8> {
        seq![105u8] + dec_digits(m as nat) + seq![101u8]
    }

    open spec fn spec_parse(s: Seq<u8>) -> Result<(int, int), DeBencodingError> {
        spec_parse_unsigned_width(s, u32::MAX as int)
    }

    proof fn lemma_parse_consumes(s: Seq<u8>) {
        <u64 as BenCodeAble>::lemma_parse_consumes(s);
    }

    proof fn lemma_encoded_shape(m: int) {
        assert(Self::spec_encoded(m)[0] == 105);
    }

    proof fn lemma_round_trip(m: int, rest: Seq<u8>) {
        <u64 as BenCodeAble>::lemma_round_trip(m, rest);
    }

    fn bencode(&self) -> (r: Vec<u8>) {
        let mut out: Vec<u8> = Vec::new();
        out.push(105);
        crate::ser::append_u64_digits(*self as u64, &mut out);
        out.push(101);
        proof {
            assert(out@ =~= seq![105u8] + dec_digits(*self as nat) + seq![101u8]);
        }
        out
    }

    fn de_bencode(d: &mut ByteDeserializer<'_>) -> (r: Result<u32, DeBencodingError>) {
        match parse_unsigned_in(d, u32::MAX as u64) {
            Ok(v) => Ok(v as u32),
            Err(e) => Err(e),
        }
    }
}

impl BenCodeAble for u16 {
    type Model = int;

    open spec fn model(&self) -> int {
        *self as int
    }

    open spec fn wf_model(m: int) -> bool {
        0 <= m <= u16::MAX as int
    }

    open spec fn spec_encoded(m: int) -> Seq<u8> {
        seq![105u8] + dec_digits(m as nat) + seq![101u8]
    }

    open spec fn spec_parse(s: Seq<u8>) -> Result<(int, int), DeBencodingError> {
        spec_parse_unsigned_width(s, u16::MAX as int)
    }

    proof fn lemma_parse_consumes(s: Seq<u8>) {
        <u64 as BenCodeAble>::lemma_parse_consumes(s);
    }

    proof fn lemma_encoded_shape(m: int) {
        assert(Self::spec_encoded(m)[0] == 105);
    }

    proof fn lemma_round_trip(m: int, rest: Seq<u8>) {
        <u64 as BenCodeAble>::lemma_round_trip(m, rest);
    }

    fn bencode(&self) -> (r: Vec<u8>) {
        let mut out: Vec<u8> = Vec::new();
        out.push(105);
        crate::ser::append_u64_digits(*self as u64, &mut out);
        out.push(101);
        proof {
            assert(out@ =~= seq![105u8] + dec_digits(*self as nat) + seq![101u8]);
        }
        out
    }

    fn de_bencode(d: &mut ByteDeserializer<'_>) -> (r: Result<u16, DeBencodingError>) {
        match parse_unsigned_in(d, u16::MAX as u64) {
            Ok(v) => Ok(v as u16),
            Err(e) => Err(e),
        }
    }
}

impl BenCodeAble for u8 {
    type Model = int;

    open spec fn model(&self) -> int {
        *self as int
    }

    open spec fn wf_model(m: int) -> bool {
        0 <= m <= u8::MAX as int
    }

    open spec fn spec_encoded(m: int) -> Seq<u8> {
        seq![105u8] + dec_digits(m as nat) + seq![101u8]
    }

    open spec fn spec_parse(s: Seq<u8>) -> Result<(int, int), DeBencodingError> {
        spec_parse_unsigned_width(s, u8::MAX as int)
    }

    proof fn lemma_parse_consumes(s: Seq<u8>) {
        <u64 as BenCodeAble>::lemma_parse_consumes(s);
    }

    proof fn lemma_encoded_shape(m: int) {
        assert(Self::spec_encoded(m)[0] == 105);
    }

    proof fn lemma_round_trip(m: int, rest: Seq<u8>) {
        <u64 as BenCodeAble>::lemma_round_trip(m, rest);
    }

    fn bencode(&self) -> (r: Vec<u8>) {
        let mut out: Vec<u8> = Vec::new();
        out.push(105);
        crate::ser::append_u64_digits(*self as u64, &mut out);
        out.push(101);
        proof {
            assert(out@ =~= seq![105u8] + dec_digits(*self as nat) + seq![101u8]);
        }
        out
    }

    fn de_bencode(d: &mut ByteDeserializer<'_>) -> (r: Result<u8, DeBencodingError>) {
        match parse_unsigned_in(d, u8::MAX as u64) {
            Ok(v) => Ok(v as u8),
            Err(e) => Err(e),
        }
    }
}

/// The models of a run of values, element by element.
pub open spec fn vec_models<T: BenCodeAble>(s: Seq<T>) -> Seq<T::Model> {
    Seq::new(s.len(), |i: int| s[i].model())
}

/// The concatenated canonical encodings of a run of models.
pub open spec fn spec_encoded_items<T: BenCodeAble>(ms: Seq<T::Model>) -> Seq<u8>
    decreases ms.len(),
{
    if ms.len() == 0 {
        Seq::empty()
    } else {
        T::spec_encoded(ms[0]) + spec_encoded_items::<T>(ms.drop_first())
    }
}

/// What decoding a run of values of one type, up to and including the
/// closing tag, yields.
pub open spec fn spec_parse_items<T: BenCodeAble>(s: Seq<u8>) -> Result<
    (Seq<T::Model>, int),
    DeBencodingError,
>
    decreases s.len(),
{
    if s.len() == 0 {
        Err(DeBencodingError::Eof)
    } else if s[0] == 101 {
        Ok((Seq::empty(), 1))
    } else {
        match T::spec_parse(s) {
            Err(e) => Err(e),
            Ok((m, n)) => {
                if 1 <= n <= s.len() {
                    match spec_parse_items::<T>(s.skip(n)) {
                        Ok((ms, k)) => Ok((seq![m] + ms, n + k)),
                        Err(e) => Err(e),
                    }
                } else {
                    Err(DeBencodingError::Eof)
                }
            },
        }
    }
}

impl<T: BenCodeAble> BenCodeAble for Vec<T> {
    type Model = Seq<T::Model>;

    open spec fn model(&self) -> Seq<T::Model> {
        vec_models::<T>(self@)
    }

    open spec fn wf_model(m: Seq<T::Model>) -> bool {
        forall|i: int| 0 <= i < m.len() ==> T::wf_model(#[trigger] m[i])
    }

    open spec fn spec_encoded(m: Seq<T::Model>) -> Seq<u8> {
        seq![108u8] + spec_encoded_items::<T>(m) + seq![101u8]
    }

    open spec fn spec_parse(s: Seq<u8>) -> Result<(Seq<T::Model>, int), DeBencodingError> {
        if s.len() == 0 {
            Err(DeBencodingError::Eof)
        } else if s[0] != 108 {
            Err(DeBencodingError::NoFoundOpeningDeliminator)
        } else {
            match spec_parse_items::<T>(s.drop_first()) {
                Ok((ms, n)) => Ok((ms, 1 + n)),
                Err(e) => Err(e),
            }
        }
    }

    proof fn lemma_parse_consumes(s: Seq<u8>) {
        if s.len() > 0 && s[0] == 108 {
            lemma_parse_items_consumes::<T>(s.drop_first());
        }
    }

    proof fn lemma_encoded_shape(m: Seq<T::Model>) {
        assert(Self::spec_encoded(m)[0] == 108);
    }

    proof fn lemma_round_trip(m: Seq<T::Model>, rest: Seq<u8>) {
        let e = Self::spec_encoded(m);
        assert((e + rest)[0] == 108);
        assert((e + rest).drop_first() =~= spec_encoded_items::<T>(m) + seq![101u8] + rest);
        lemma_round_trip_items::<T>(m, rest);
    }

    fn bencode(&self) -> (r: Vec<u8>) {
        let mut out: Vec<u8> = Vec::new();
        out.push(108);
        bencode_items_onto::<T>(self, 0, &mut out);
        out.push(101);
        proof {
            assert(vec_models::<T>(self@).skip(0) =~= vec_models::<T>(self@));
            assert(out@ =~= seq![108u8] + spec_encoded_items::<T>(vec_models::<T>(self@))
                + seq![101u8]);
        }
        out
    }

    fn de_bencode(d: &mut ByteDeserializer<'_>) -> (r: Result<Vec<T>, DeBencodingError>) {
        proof {
            use_type_invariant(&*d);
        }
        let ghost s = d.remaining();
        let b = match d.read_byte() {
            Ok(b) => b,
            Err(e) => {
                return Err(e);
            },
        };
        if b != 108 {
            return Err(DeBencodingError::NoFoundOpeningDeliminator);
        }
        proof {
            assert(d.remaining() =~= s.drop_first());
        }
        de_bencode_items::<T>(d)
    }
}

/// A successful parse of an item run consumes at least one byte and
/// never more than the buffer holds.
proof fn lemma_parse_items_consumes<T: BenCodeAble>(s: Seq<u8>)
    ensures
        spec_parse_items::<T>(s) matches Ok(p) ==> 1 <= p.1 <= s.len(),
    decreases s.len(),
{
    if s.len() > 0 && s[0] != 101 {
        T::lemma_parse_consumes(s);
        match T::spec_parse(s) {
            Ok((m, n)) => {
                if 1 <= n <= s.len() {
                    lemma_parse_items_consumes::<T>(s.skip(n));
                }
            },
            Err(e) => {},
        }
    }
}

/// Round trip for a run of items of one type followed by the closing
/// tag.
proof fn lemma_round_trip_items<T: BenCodeAble>(ms: Seq<T::Model>, rest: Seq<u8>)
    requires
        forall|i: int| 0 <= i < ms.len() ==> T::wf_model(#[trigger] ms[i]),
    ensures
        spec_parse_items::<T>(spec_encoded_items::<T>(ms) + seq![101u8] + rest) == Ok::<
            (Seq<T::Model>, int),
            DeBencodingError,
        >((ms, spec_encoded_items::<T>(ms).len() as int + 1)),
    decreases ms.len(),
{
    let s = spec_encoded_items::<T>(ms) + seq![101u8] + rest;
    if ms.len() == 0 {
        assert(ms =~= Seq::<T::Model>::empty());
        assert(s[0] == 101);
    } else {
        let m0 = ms[0];
        let e0 = T::spec_encoded(m0);
        let rest0 = spec_encoded_items::<T>(ms.drop_first()) + seq![101u8] + rest;
        assert(s =~= e0 + rest0);
        T::lemma_encoded_shape(m0);
        T::lemma_round_trip(m0, rest0);
        let n0 = e0.len() as int;
        assert(T::spec_parse(s) == Ok::<(T::Model, int), DeBencodingError>((m0, n0)));
        assert(1 <= n0 <= s.len());
        assert(s[0] == e0[0]);
        assert(s[0] != 101);
        assert(s.skip(n0) =~= rest0);
        lemma_round_trip_items::<T>(ms.drop_first(), rest);
        assert(seq![m0] + ms.drop_first() =~= ms);
        assert(spec_encoded_items::<T>(ms) =~= e0 + spec_encoded_items::<T>(ms.drop_first()));
    }
}

/// Appends the canonical encodings of the items of `items` from
/// position `i` on.
fn bencode_items_onto<T: BenCodeAble>(items: &Vec<T>, i: usize, out: &mut Vec<u8>)
    requires
        i <= items@.len(),
    ensures
        final(out)@ == old(out)@ + spec_encoded_items::<T>(vec_models::<T>(items@).skip(i as int)),
    decreases items@.len() - i,
{
    let ghost ms = vec_models::<T>(items@);
    if i == items.len() {
        proof {
            assert(ms.skip(i as int) =~= Seq::<T::Model>::empty());
            assert(out@ =~= old(out)@ + spec_encoded_items::<T>(ms.skip(i as int)));
        }
    } else {
        let mut eb = items[i].bencode();
        out.append(&mut eb);
        bencode_items_onto::<T>(items, i + 1, out);
        proof {
            assert(ms.skip(i as int)[0] == ms[i as int]);
            assert(ms.skip(i as int).drop_first() =~= ms.skip(i + 1 as int));
            assert(out@ =~= old(out)@ + spec_encoded_items::<T>(ms.skip(i as int)));
        }
    }
}

/// Reads a run of values of one type up to and including the closing
/// tag.
fn de_bencode_items<T: BenCodeAble>(d: &mut ByteDeserializer<'_>) -> (r: Result<
    Vec<T>,
    DeBencodingError,
>)
    ensures
        final(d).bytes() == old(d).bytes(),
        match spec_parse_items::<T>(old(d).remaining()) {
            Ok(p) => r matches Ok(items) && vec_models::<T>(items@) == p.0 && final(d).pos()
                == old(d).pos() + p.1,
            Err(e) => r == Err::<Vec<T>, DeBencodingError>(e),
        },
    decreases old(d).remaining().len(),
{
    proof {
        use_type_invariant(&*d);
    }
    let ghost s = d.remaining();
    let b = match d.peek_byte() {
        Ok(b) => *b,
        Err(e) => {
            return Err(e);
        },
    };
    if b == 101 {
        let _ = match d.read_byte() {
            Ok(c) => c,
            Err(e) => {
                proof {
                    assert(false);
                }
                return Err(e);
            },
        };
        let items: Vec<T> = Vec::new();
        proof {
            assert(vec_models::<T>(items@) =~= Seq::<T::Model>::empty());
        }
        Ok(items)
    } else {
        let v = match T::de_bencode(d) {
            Ok(v) => v,
            Err(e) => {
                return Err(e);
            },
        };
        proof {
            T::lemma_parse_consumes(s);
            assert(d.remaining() =~= s.skip(d.pos() - old(d).pos()));
        }
        let mut rest = match de_bencode_items::<T>(d) {
            Ok(r) => r,
            Err(e) => {
                return Err(e);
            },
        };
        let ghost tail = rest@;
        let ghost vm = v.model();
        let ghost v0 = v;
        rest.insert(0, v);
        proof {
            assert(rest@ =~= seq![v0] + tail);
            assert(vec_models::<T>(rest@) =~= seq![vm] + vec_models::<T>(tail));
        }
        Ok(rest)
    }
}

/// The text-input cursor: a reader over a borrowed string, character
/// by character.
pub struct Deserializer<'de> {
    /// The text not yet consumed.
    pub input: &'de str,
}

impl<'de> Deserializer<'de> {
    /// Builds a cursor over `input`.
    pub fn from_str(input: &'de str) -> (d: Self)
        ensures
            d.input@ == input@,
    {
        Deserializer { input }
    }

    /// Looks at the first character in the input without consuming it.
    pub fn peek_char(&mut self) -> (r: Result<char, DeBencodingError>)
        ensures
            final(self).input@ == old(self).input@,
            match r {
                Ok(c) => old(self).input@.len() > 0 && c == old(self).input@[0],
                Err(e) => old(self).input@.len() == 0 && e == DeBencodingError::Eof,
            },
    {
        if self.input.is_empty() {
            Err(DeBencodingError::Eof)
        } else {
            Ok(self.input.get_char(0))
        }
    }

    /// Consumes the first character in the input.
    pub fn next_char(&mut self) -> (r: Result<char, DeBencodingError>)
        ensures
            match r {
                Ok(c) => old(self).input@.len() > 0 && c == old(self).input@[0] && final(self).input@ == old(self).input@.drop_first(),
                Err(e) => old(self).input@.len() == 0 && e == DeBencodingError::Eof && final(self).input@ == old(self).input@,
            },
    {
        let ch = match self.peek_char() {
            Ok(c) => c,
            Err(e) => {
                return Err(e);
            },
        };
        let n = self.input.unicode_len();
        self.input = self.input.substring_char(1, n);
        proof {
            assert(self.input@ =~= old(self).input@.drop_first());
        }
        Ok(ch)
    }
}

/// Decodes a `T` from the UTF-8 bytes of `s`, demanding that the whole
/// input is consumed: bytes after a complete value are a
/// `TrailingCharacters` failure.
pub fn from_str<T: BenCodeAble>(s: &str) -> (r: Result<T, DeBencodingError>)
    ensures
        match T::spec_parse(s.spec_bytes()) {
            Ok(p) => {
                if p.1 == s.spec_bytes().len() {
                    r matches Ok(v) && v.model() == p.0
                } else {
                    r == Err::<T, DeBencodingError>(DeBencodingError::TrailingCharacters)
                }
            },
            Err(e) => r == Err::<T, DeBencodingError>(e),
        },
{
    let mut deserializer = ByteDeserializer::from_str(s);
    proof {
        assert(deserializer.remaining() =~= s.spec_bytes());
    }
    let t = match T::de_bencode(&mut deserializer) {
        Ok(t) => t,
        Err(e) => {
            return Err(e);
        },
    };
    proof {
        use_type_invariant(&deserializer);
    }
    if deserializer.done() {
        Ok(t)
    } else {
        Err(DeBencodingError::TrailingCharacters)
    }
}

} // verus!
