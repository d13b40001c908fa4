//! The decode engine: a byte cursor over an immutable input buffer and
//! the type-tag dispatch that reconstructs a [`Value`] tree from wire
//! bytes.
//!
//! Every decoding function is exact about its result: the spec functions
//! here say, byte for byte, which inputs decode to which values and
//! which error each rejected input earns.

pub mod err;

use vstd::prelude::*;
use vstd::slice::{slice_index_get, slice_subrange, slice_to_vec};
use vstd::string::StringSliceAdditionalSpecFns;
use vstd::utf8::{decode_utf8, valid_utf8};
use crate::bytes::{digits_val, digit_run_len, is_digit_byte};
use crate::dict::{spec_sort_pairs, Dict};
use crate::err::DeBencodingError;
use crate::value::{model_items, model_pairs, SpecValue, Value};

verus! {

/// What scanning a decimal field at the front of `s` yields: the value
/// and the length of the digit run, or the error the field earns.
///
/// A field that runs to the end of the buffer has no terminating tag
/// byte at all; an empty or too-large field cannot be parsed as a
/// number of the target width.
pub open spec fn spec_read_integer(s: Seq<u8>, limit: nat) -> Result<
    (nat, int),
    DeBencodingError,
> {
    let run = digit_run_len(s);
    if run == s.len() {
        Err(DeBencodingError::NoFoundClosingDeliminator)
    } else if run == 0 {
        Err(DeBencodingError::ParseIntError)
    } else if digits_val(s.subrange(0, run)) > limit {
        Err(DeBencodingError::ParseIntError)
    } else {
        Ok((digits_val(s.subrange(0, run)), run))
    }
}

/// What decoding an integer frame `i<decimal>e` at the front of `s`
/// yields: the value and the bytes consumed, or the error earned.
/// `s[0]` is the tag byte `i`. A minus sign may precede the digits;
/// `-0` decodes to zero. Values whose magnitude exceeds `i64::MAX`
/// are rejected, so the engine never overflows its integer width.
pub open spec fn spec_decode_int(s: Seq<u8>) -> Result<(int, int), DeBencodingError> {
    let t = s.drop_first();
    let neg = t.len() > 0 && t[0] == 45;
    let u = if neg {
        t.drop_first()
    } else {
        t
    };
    let sign: int = if neg {
        1
    } else {
        0
    };
    match spec_read_integer(u, i64::MAX as nat) {
        Err(e) => Err(e),
        Ok((m, run)) => {
            if u[run] != 101 {
                Err(DeBencodingError::NoFoundClosingDeliminator)
            } else {
                Ok(
                    (
                        if neg {
                            -(m as int)
                        } else {
                            m as int
                        },
                        1 + sign + run + 1,
                    ),
                )
            }
        },
    }
}

/// What decoding a string frame `<length>:<bytes>` at the front of `s`
/// yields: the raw bytes and the total consumed, or the error earned.
/// `s[0]` is a digit. A length that the remaining buffer cannot cover
/// is rejected without reading past the end.
pub open spec fn spec_decode_str(s: Seq<u8>) -> Result<(Seq<u8>, int), DeBencodingError> {
    match spec_read_integer(s, usize::MAX as nat) {
        Err(e) => Err(e),
        Ok((len, run)) => {
            if s[run] != 58 {
                Err(DeBencodingError::NoFoundColon)
            } else if s.len() - run - 1 < len {
                Err(DeBencodingError::WrongLengthOfString)
            } else {
                Ok((s.subrange(run + 1, run + 1 + len), run + 1 + len))
            }
        },
    }
}

/// What decoding one value at the front of `s` yields. Dispatch is by
/// the leading byte: a digit opens a string, `i` an integer, `l` a
/// list, `d` a dictionary; any other byte matches no shape. The pairs
/// of a dictionary are re-sorted by key, so wire order never shows in
/// the result.
pub open spec fn spec_decode_value(s: Seq<u8>) -> Result<(SpecValue, int), DeBencodingError>
    decreases s.len(), 0int,
{
    if s.len() == 0 {
        Err(DeBencodingError::Eof)
    } else if is_digit_byte(s[0]) {
        match spec_decode_str(s) {
            Ok((b, n)) => Ok((SpecValue::Str(b), n)),
            Err(e) => Err(e),
        }
    } else if s[0] == 105 {
        match spec_decode_int(s) {
            Ok((i, n)) => Ok((SpecValue::Int(i), n)),
            Err(e) => Err(e),
        }
    } else if s[0] == 108 {
        match spec_decode_items(s.drop_first()) {
            Ok((items, n)) => Ok((SpecValue::List(items), 1 + n)),
            Err(e) => Err(e),
        }
    } else if s[0] == 100 {
        match spec_decode_pairs(s.drop_first()) {
            Ok((pairs, n)) => Ok((SpecValue::Dict(spec_sort_pairs(pairs)), 1 + n)),
            Err(e) => Err(e),
        }
    } else {
        Err(DeBencodingError::UnexpectedCharType(s[0] as char))
    }
}

/// What decoding a run of list items up to and including the closing
/// `e` yields. The guards on consumed counts only restate what
/// [`lemma_spec_decode_consumed`] proves of every successful parse.
pub open spec fn spec_decode_items(s: Seq<u8>) -> Result<
    (Seq<SpecValue>, int),
    DeBencodingError,
>
    decreases s.len(), 1int,
{
    if s.len() == 0 {
        Err(DeBencodingError::Eof)
    } else if s[0] == 101 {
        Ok((Seq::empty(), 1))
    } else {
        match spec_decode_value(s) {
            Err(e) => Err(e),
            Ok((v, n)) => {
                if 1 <= n <= s.len() {
                    match spec_decode_items(s.skip(n)) {
                        Ok((items, k)) => Ok((seq![v] + items, n + k)),
                        Err(e) => Err(e),
                    }
                } else {
                    Err(DeBencodingError::Eof)
                }
            },
        }
    }
}

/// What decoding a run of dictionary pairs up to and including the
/// closing `e` yields, in wire order. A key must be a byte string: a
/// pair whose key position holds another shape matches no callback.
pub open spec fn spec_decode_pairs(s: Seq<u8>) -> Result<
    (Seq<(Seq<u8>, SpecValue)>, int),
    DeBencodingError,
>
    decreases s.len(), 1int,
{
    if s.len() == 0 {
        Err(DeBencodingError::Eof)
    } else if s[0] == 101 {
        Ok((Seq::empty(), 1))
    } else if !is_digit_byte(s[0]) {
        Err(DeBencodingError::UnexpectedCharType(s[0] as char))
    } else {
        match spec_decode_str(s) {
            Err(e) => Err(e),
            Ok((key, n)) => {
                if 1 <= n <= s.len() {
                    match spec_decode_value(s.skip(n)) {
                        Err(e) => Err(e),
                        Ok((v, k)) => {
                            if 1 <= k <= s.len() - n {
                                match spec_decode_pairs(s.skip(n + k)) {
                                    Ok((pairs, j)) => Ok((seq![(key, v)] + pairs, n + k + j)),
                                    Err(e) => Err(e),
                                }
                            } else {
                                Err(DeBencodingError::Eof)
                            }
                        },
                    }
                } else {
                    Err(DeBencodingError::Eof)
                }
            },
        }
    }
}

/// Every successful parse of one value consumes at least one byte and
/// never more than the buffer holds.
pub proof fn lemma_spec_decode_consumed(s: Seq<u8>)
    ensures
        spec_decode_value(s) matches Ok((v, n)) ==> 1 <= n <= s.len(),
    decreases s.len(), 0int,
{
    crate::bytes::lemma_digit_run_len_bounds(s);
    if s.len() > 0 {
        crate::bytes::lemma_digit_run_len_bounds(s.drop_first());
        crate::bytes::lemma_digit_run_len_bounds(s.drop_first().drop_first());
        if s[0] == 108 {
            lemma_spec_decode_items_consumed(s.drop_first());
        }
        if s[0] == 100 {
            lemma_spec_decode_pairs_consumed(s.drop_first());
        }
    }
}

/// Consumed-count bounds for a run of list items.
pub proof fn lemma_spec_decode_items_consumed(s: Seq<u8>)
    ensures
        spec_decode_items(s) matches Ok((items, n)) ==> 1 <= n <= s.len(),
    decreases s.len(), 1int,
{
    if s.len() > 0 && s[0] != 101 {
        lemma_spec_decode_consumed(s);
        match spec_decode_value(s) {
            Ok((v, n)) => {
                if 1 <= n <= s.len() {
                    lemma_spec_decode_items_consumed(s.skip(n));
                }
            },
            Err(e) => {},
        }
    }
}

/// Consumed-count bounds for a run of dictionary pairs.
pub proof fn lemma_spec_decode_pairs_consumed(s: Seq<u8>)
    ensures
        spec_decode_pairs(s) matches Ok((pairs, n)) ==> 1 <= n <= s.len(),
    decreases s.len(), 1int,
{
    if s.len() > 0 && s[0] != 101 && is_digit_byte(s[0]) {
        crate::bytes::lemma_digit_run_len_bounds(s);
        match spec_decode_str(s) {
            Ok((key, n)) => {
                if 1 <= n <= s.len() {
                    lemma_spec_decode_consumed(s.skip(n));
                    match spec_decode_value(s.skip(n)) {
                        Ok((v, k)) => {
                            if 1 <= k <= s.len() - n {
                                lemma_spec_decode_pairs_consumed(s.skip(n + k));
                            }
                        },
                        Err(e) => {},
                    }
                }
            },
            Err(e) => {},
        }
    }
}

/// What reading an unsigned integer frame `i<decimal>e` yields. The
/// opening tag is demanded first; a sign is not accepted, so a negative
/// field fails on its empty digit run.
pub open spec fn spec_parse_unsigned(s: Seq<u8>) -> Result<(nat, int), DeBencodingError> {
    if s.len() == 0 {
        Err(DeBencodingError::Eof)
    } else if s[0] != 105 {
        Err(DeBencodingError::NoFoundOpeningDeliminator)
    } else {
        match spec_read_integer(s.drop_first(), u64::MAX as nat) {
            Err(e) => Err(e),
            Ok((m, run)) => {
                if s.drop_first()[run] != 101 {
                    Err(DeBencodingError::NoFoundClosingDeliminator)
                } else {
                    Ok((m, 1 + run + 1))
                }
            },
        }
    }
}

/// What reading a signed integer frame yields: as the engine's integer
/// decode, once the opening tag has been checked.
pub open spec fn spec_parse_signed(s: Seq<u8>) -> Result<(int, int), DeBencodingError> {
    if s.len() == 0 {
        Err(DeBencodingError::Eof)
    } else if s[0] != 105 {
        Err(DeBencodingError::NoFoundOpeningDeliminator)
    } else {
        spec_decode_int(s)
    }
}

/// What reading a text string frame yields: the string frame's bytes,
/// decoded as UTF-8, or `InputNotUtf8` where they are no valid text.
pub open spec fn spec_parse_str(s: Seq<u8>) -> Result<(Seq<char>, int), DeBencodingError> {
    match spec_decode_str(s) {
        Err(e) => Err(e),
        Ok((b, n)) => {
            if valid_utf8(b) {
                Ok((decode_utf8(b), n))
            } else {
                Err(DeBencodingError::InputNotUtf8)
            }
        },
    }
}

/// Relies on `core::str::from_utf8`: it succeeds exactly on valid
/// UTF-8, and the characters of the string it returns are the decoded
/// scalars of the input bytes.
#[verifier::external_body]
pub(crate) fn bytes_to_str(v: &[u8]) -> (r: Option<&str>)
    ensures
        r is Some <==> valid_utf8(v@),
        r matches Some(s) ==> s@ == decode_utf8(v@),
{
    core::str::from_utf8(v).ok()
}

/// The byte cursor: a reader over an immutable input buffer whose
/// position only ever moves forward. It never copies the buffer;
/// string frames are returned as slices of it.
pub struct Deserializer<'de> {
    /// The data being deserialized.
    input: &'de [u8],
    /// The index of the next byte to be read.
    offset: usize,
}

impl<'de> Deserializer<'de> {
    /// The whole input buffer.
    pub closed spec fn bytes(self) -> Seq<u8> {
        self.input@
    }

    /// How many bytes have been consumed.
    pub closed spec fn pos(self) -> int {
        self.offset as int
    }

    /// The bytes not yet consumed.
    pub open spec fn remaining(self) -> Seq<u8> {
        self.bytes().skip(self.pos())
    }

    /// The cursor's position never passes the end of its buffer.
    #[verifier::type_invariant]
    pub open spec fn inv(self) -> bool {
        0 <= self.pos() <= self.bytes().len()
    }

    /// Builds a cursor over the UTF-8 bytes of `input`.
    pub fn from_str(input: &'de str) -> (d: Self)
        ensures
            d.bytes() == input.spec_bytes(),
            d.pos() == 0,
    {
        Deserializer { input: input.as_bytes(), offset: 0 }
    }

    /// Builds a cursor over `input`.
    pub fn from_bytes(input: &'de [u8]) -> (d: Self)
        ensures
            d.bytes() == input@,
            d.pos() == 0,
    {
        Deserializer { input, offset: 0 }
    }

    /// Peeks at the next byte in the input without consuming it.
    pub fn peek_byte(&self) -> (r: Result<&u8, DeBencodingError>)
        ensures
            match r {
                Ok(b) => self.remaining().len() > 0 && *b == self.remaining()[0],
                Err(e) => self.remaining().len() == 0 && e == DeBencodingError::Eof,
            },
    {
        proof {
            use_type_invariant(self);
        }
        if self.offset < self.input.len() {
            Ok(slice_index_get(self.input, self.offset))
        } else {
            Err(DeBencodingError::Eof)
        }
    }

    /// Returns and consumes the byte at the current offset.
    pub fn read_byte(&mut self) -> (r: Result<u8, DeBencodingError>)
        ensures
            final(self).bytes() == old(self).bytes(),
            match r {
                Ok(b) => old(self).remaining().len() > 0 && b == old(self).remaining()[0]
                    && final(self).pos() == old(self).pos() + 1,
                Err(e) => old(self).remaining().len() == 0 && e == DeBencodingError::Eof
                    && final(self).pos() == old(self).pos(),
            },
    {
        proof {
            use_type_invariant(&*self);
        }
        if self.offset < self.input.len() {
            let b = *slice_index_get(self.input, self.offset);
            self.offset = self.offset + 1;
            Ok(b)
        } else {
            Err(DeBencodingError::Eof)
        }
    }

    /// Returns and consumes the first `len` bytes from the current
    /// offset, as a slice of the input buffer.
    pub fn read_bytes(&mut self, len: usize) -> (r: Result<&'de [u8], DeBencodingError>)
        ensures
            final(self).bytes() == old(self).bytes(),
            match r {
                Ok(b) => len <= old(self).remaining().len() && b@ == old(self).remaining().subrange(
                    0,
                    len as int,
                ) && final(self).pos() == old(self).pos() + len,
                Err(e) => len > old(self).remaining().len() && e == DeBencodingError::Eof
                    && final(self).pos() == old(self).pos(),
            },
    {
        proof {
            use_type_invariant(&*self);
        }
        if len <= self.input.len() - self.offset {
            let input: &'de [u8] = self.input;
            let b = slice_subrange(input, self.offset, self.offset + len);
            self.offset = self.offset + len;
            proof {
                assert(b@ =~= old(self).remaining().subrange(0, len as int));
            }
            Ok(b)
        } else {
            Err(DeBencodingError::Eof)
        }
    }

    /// Returns and consumes the first `len` bytes as text, failing
    /// where they are not valid UTF-8.
    pub fn read_string(&mut self, len: usize) -> (r: Result<&'de str, DeBencodingError>)
        ensures
            final(self).bytes() == old(self).bytes(),
            match r {
                Ok(s) => len <= old(self).remaining().len() && valid_utf8(
                    old(self).remaining().subrange(0, len as int),
                ) && s@ == decode_utf8(old(self).remaining().subrange(0, len as int))
                    && final(self).pos() == old(self).pos() + len,
                Err(e) => final(self).pos() == old(self).pos() && (if len > old(self).remaining().len() {
                    e == DeBencodingError::Eof
                } else {
                    e == DeBencodingError::InputNotUtf8 && !valid_utf8(
                        old(self).remaining().subrange(0, len as int),
                    )
                }),
            },
    {
        proof {
            use_type_invariant(&*self);
        }
        if len > self.input.len() - self.offset {
            return Err(DeBencodingError::Eof);
        }
        let input: &'de [u8] = self.input;
        let b = slice_subrange(input, self.offset, self.offset + len);
        proof {
            assert(b@ =~= old(self).remaining().subrange(0, len as int));
        }
        match bytes_to_str(b) {
            Some(s) => {
                self.offset = self.offset + len;
                Ok(s)
            },
            None => Err(DeBencodingError::InputNotUtf8),
        }
    }

    /// Reads the digit run at the current offset and parses it as a
    /// decimal number of at most `limit`, consuming it on success.
    /// Fails with no terminating tag byte in the buffer, on an empty
    /// run, and on a value beyond `limit` — exactly as
    /// [`spec_read_integer`] says.
    pub fn read_integer(&mut self, limit: u64) -> (r: Result<u64, DeBencodingError>)
        ensures
            final(self).bytes() == old(self).bytes(),
            match spec_read_integer(old(self).remaining(), limit as nat) {
                Ok((v, run)) => r matches Ok(x) && x as nat == v && final(self).pos() == old(
                    self,
                ).pos() + run,
                Err(e) => r == Err::<u64, DeBencodingError>(e) && final(self).pos() == old(
                    self,
                ).pos(),
            },
    {
        proof {
            use_type_invariant(&*self);
        }
        let ghost rem = self.remaining();
        let ghost run = digit_run_len(rem);
        proof {
            crate::bytes::lemma_digit_run_len_bounds(rem);
        }
        let end = match self.position_next() {
            None => {
                return Err(DeBencodingError::NoFoundClosingDeliminator);
            },
            Some(e) => e,
        };
        if end == self.offset {
            return Err(DeBencodingError::ParseIntError);
        }
        let mut k: usize = self.offset;
        let mut acc: u64 = 0;
        let mut over: bool = false;
        while k < end
            invariant
                self.inv(),
                rem == self.remaining(),
                run == digit_run_len(rem),
                self.offset <= k <= end,
                end as int == self.pos() + run,
                run < rem.len(),
                forall|j: int| 0 <= j < run ==> is_digit_byte(#[trigger] rem[j]),
                !over ==> acc as nat == digits_val(rem.subrange(0, k - self.pos())) && acc
                    <= limit,
                over ==> digits_val(rem.subrange(0, k - self.pos())) > limit as nat,
            decreases end - k,
        {
            let b = *slice_index_get(self.input, k);
            let ghost i0 = k - self.pos();
            proof {
                assert(rem[i0] == self.input@[k as int]);
                assert(is_digit_byte(b));
                crate::bytes::lemma_digits_val_step(rem, i0);
                vstd::arithmetic::div_mod::lemma_fundamental_div_mod(limit as int, 10);
            }
            let d: u64 = (b - 48) as u64;
            if over || acc > limit / 10 || (acc == limit / 10 && d > limit % 10) {
                proof {
                    assert(digits_val(rem.subrange(0, i0 + 1)) > limit as nat);
                }
                over = true;
            } else {
                proof {
                    assert(acc * 10 + d <= limit);
                }
                acc = acc * 10 + d;
            }
            k = k + 1;
        }
        if over {
            return Err(DeBencodingError::ParseIntError);
        }
        proof {
            assert(rem.subrange(0, run) =~= rem.subrange(0, end - self.pos()));
        }
        self.offset = end;
        Ok(acc)
    }

    /// Reads an unsigned integer frame `i<decimal>e` and consumes it.
    pub fn parse_unsigned(&mut self) -> (r: Result<u64, DeBencodingError>)
        ensures
            final(self).bytes() == old(self).bytes(),
            match spec_parse_unsigned(old(self).remaining()) {
                Ok((v, n)) => r matches Ok(x) && x as nat == v && final(self).pos() == old(
                    self,
                ).pos() + n,
                Err(e) => r == Err::<u64, DeBencodingError>(e),
            },
    {
        proof {
            use_type_invariant(&*self);
        }
        let ghost s = self.remaining();
        let b = match self.read_byte() {
            Ok(b) => b,
            Err(e) => {
                return Err(e);
            },
        };
        if b != 105 {
            return Err(DeBencodingError::NoFoundOpeningDeliminator);
        }
        let ghost u = s.drop_first();
        proof {
            assert(u =~= self.remaining());
            crate::bytes::lemma_digit_run_len_bounds(u);
        }
        let v = match self.read_integer(u64::MAX) {
            Ok(v) => v,
            Err(e) => {
                return Err(e);
            },
        };
        let ghost run = digit_run_len(u);
        let c = match self.read_byte() {
            Ok(c) => c,
            Err(e) => {
                proof {
                    assert(u.skip(run).len() > 0);
                    assert(false);
                }
                return Err(e);
            },
        };
        proof {
            assert(c == u.skip(run)[0]);
            assert(c == u[run]);
        }
        if c != 101 {
            return Err(DeBencodingError::NoFoundClosingDeliminator);
        }
        Ok(v)
    }

    /// Reads a signed integer frame: a possible minus sign after the
    /// opening tag, then decimal digits, then the closing tag. A bare
    /// `-0` parses to zero.
    pub fn parse_signed(&mut self) -> (r: Result<i64, DeBencodingError>)
        ensures
            final(self).bytes() == old(self).bytes(),
            match spec_parse_signed(old(self).remaining()) {
                Ok((v, n)) => r matches Ok(x) && x as int == v && final(self).pos() == old(
                    self,
                ).pos() + n,
                Err(e) => r == Err::<i64, DeBencodingError>(e),
            },
    {
        proof {
            use_type_invariant(&*self);
        }
        let ghost s = self.remaining();
        let b = match self.read_byte() {
            Ok(b) => b,
            Err(e) => {
                return Err(e);
            },
        };
        if b != 105 {
            return Err(DeBencodingError::NoFoundOpeningDeliminator);
        }
        let ghost t = s.drop_first();
        proof {
            assert(t =~= self.remaining());
        }
        let neg = match self.peek_byte() {
            Ok(c) => *c == 45,
            Err(_) => false,
        };
        if neg {
            let _ = match self.read_byte() {
                Ok(c) => c,
                Err(e) => {
                    proof {
                        assert(false);
                    }
                    return Err(e);
                },
            };
        }
        let ghost u = if neg {
            t.drop_first()
        } else {
            t
        };
        proof {
            assert(u =~= self.remaining());
            crate::bytes::lemma_digit_run_len_bounds(u);
        }
        let m = match self.read_integer(i64::MAX as u64) {
            Ok(v) => v,
            Err(e) => {
                return Err(e);
            },
        };
        let ghost run = digit_run_len(u);
        let c = match self.read_byte() {
            Ok(c) => c,
            Err(e) => {
                proof {
                    assert(u.skip(run).len() > 0);
                    assert(false);
                }
                return Err(e);
            },
        };
        proof {
            assert(c == u.skip(run)[0]);
            assert(c == u[run]);
        }
        if c != 101 {
            return Err(DeBencodingError::NoFoundClosingDeliminator);
        }
        if neg {
            Ok(-(m as i64))
        } else {
            Ok(m as i64)
        }
    }

    /// Reads a string frame `<length>:<bytes>` and consumes it,
    /// returning the raw bytes as a slice of the input buffer.
    pub fn parse_bytes(&mut self) -> (r: Result<&'de [u8], DeBencodingError>)
        ensures
            final(self).bytes() == old(self).bytes(),
            match spec_decode_str(old(self).remaining()) {
                Ok((b, n)) => r matches Ok(sl) && sl@ == b && final(self).pos() == old(self).pos()
                    + n,
                Err(e) => r == Err::<&'de [u8], DeBencodingError>(e),
            },
    {
        proof {
            use_type_invariant(&*self);
            crate::bytes::lemma_digit_run_len_bounds(self.remaining());
        }
        let ghost s = self.remaining();
        let ghost run = digit_run_len(s);
        let len64 = match self.read_integer(usize::MAX as u64) {
            Ok(v) => v,
            Err(e) => {
                return Err(e);
            },
        };
        let len: usize = len64 as usize;
        let c = match self.read_byte() {
            Ok(c) => c,
            Err(e) => {
                proof {
                    assert(s.skip(run).len() > 0);
                    assert(false);
                }
                return Err(e);
            },
        };
        proof {
            assert(c == s.skip(run)[0]);
            assert(c == s[run]);
        }
        if c != 58 {
            return Err(DeBencodingError::NoFoundColon);
        }
        if self.input.len() - self.offset < len {
            return Err(DeBencodingError::WrongLengthOfString);
        }
        let b = match self.read_bytes(len) {
            Ok(b) => b,
            Err(e) => {
                proof {
                    assert(false);
                }
                return Err(e);
            },
        };
        proof {
            assert(self.remaining() =~= s.skip(run + 1 + len));
            assert(b@ =~= s.subrange(run + 1, run + 1 + len));
        }
        Ok(b)
    }

    /// Reads a string frame and consumes it, returning its bytes as
    /// text, or `InputNotUtf8` where they are none.
    pub fn parse_str(&mut self) -> (r: Result<&'de str, DeBencodingError>)
        ensures
            final(self).bytes() == old(self).bytes(),
            match spec_parse_str(old(self).remaining()) {
                Ok((cs, n)) => r matches Ok(st) && st@ == cs && final(self).pos() == old(
                    self,
                ).pos() + n,
                Err(e) => r == Err::<&'de str, DeBencodingError>(e),
            },
    {
        proof {
            use_type_invariant(&*self);
            crate::bytes::lemma_digit_run_len_bounds(self.remaining());
        }
        let ghost s = self.remaining();
        let ghost run = digit_run_len(s);
        let len64 = match self.read_integer(usize::MAX as u64) {
            Ok(v) => v,
            Err(e) => {
                return Err(e);
            },
        };
        let len: usize = len64 as usize;
        let c = match self.read_byte() {
            Ok(c) => c,
            Err(e) => {
                proof {
                    assert(s.skip(run).len() > 0);
                    assert(false);
                }
                return Err(e);
            },
        };
        proof {
            assert(c == s.skip(run)[0]);
            assert(c == s[run]);
        }
        if c != 58 {
            return Err(DeBencodingError::NoFoundColon);
        }
        if self.input.len() - self.offset < len {
            return Err(DeBencodingError::WrongLengthOfString);
        }
        proof {
            assert(self.remaining() =~= s.skip(run + 1));
            assert(self.remaining().subrange(0, len as int) =~= s.subrange(run + 1, run + 1 + len));
        }
        let st = match self.read_string(len) {
            Ok(st) => st,
            Err(e) => {
                return Err(e);
            },
        };
        Ok(st)
    }

    /// Decodes one value at the cursor. Dispatch is by the leading
    /// byte: a digit opens a string, `i` an integer, `l` a list, `d` a
    /// dictionary; any other byte is rejected. Exactly as
    /// [`spec_decode_value`] says of the remaining bytes.
    pub fn parse_value(&mut self) -> (r: Result<Value, DeBencodingError>)
        ensures
            final(self).bytes() == old(self).bytes(),
            match spec_decode_value(old(self).remaining()) {
                Ok((m, n)) => r matches Ok(v) && v.model() == m && final(self).pos() == old(
                    self,
                ).pos() + n,
                Err(e) => r == Err::<Value, DeBencodingError>(e),
            },
        decreases old(self).remaining().len(), 0int,
    {
        proof {
            use_type_invariant(&*self);
        }
        let ghost s = self.remaining();
        let b = match self.peek_byte() {
            Ok(b) => *b,
            Err(e) => {
                return Err(e);
            },
        };
        if 48 <= b && b <= 57 {
            let bytes = match self.parse_bytes() {
                Ok(bs) => bs,
                Err(e) => {
                    return Err(e);
                },
            };
            let v = slice_to_vec(bytes);
            Ok(Value::Str(v))
        } else if b == 105 {
            let i = match self.parse_signed() {
                Ok(i) => i,
                Err(e) => {
                    return Err(e);
                },
            };
            Ok(Value::Int(i))
        } else if b == 108 {
            let _ = match self.read_byte() {
                Ok(c) => c,
                Err(e) => {
                    proof {
                        assert(false);
                    }
                    return Err(e);
                },
            };
            proof {
                assert(self.remaining() =~= s.drop_first());
            }
            let items = match self.parse_items() {
                Ok(it) => it,
                Err(e) => {
                    return Err(e);
                },
            };
            Ok(Value::List(items))
        } else if b == 100 {
            let _ = match self.read_byte() {
                Ok(c) => c,
                Err(e) => {
                    proof {
                        assert(false);
                    }
                    return Err(e);
                },
            };
            proof {
                assert(self.remaining() =~= s.drop_first());
            }
            let pairs = match self.parse_pairs() {
                Ok(ps) => ps,
                Err(e) => {
                    return Err(e);
                },
            };
            let ghost raw = model_pairs(pairs@);
            let sorted = crate::dict::sort_pair_vec(pairs);
            proof {
                crate::dict::lemma_spec_sort_sorted(raw);
            }
            let d = Dict::from_sorted(sorted);
            Ok(Value::Dict(d))
        } else {
            Err(DeBencodingError::UnexpectedCharType(b as char))
        }
    }

    /// Decodes a run of list items up to and including the closing
    /// tag, in wire order.
    fn parse_items(&mut self) -> (r: Result<Vec<Value>, DeBencodingError>)
        ensures
            final(self).bytes() == old(self).bytes(),
            match spec_decode_items(old(self).remaining()) {
                Ok((ms, n)) => r matches Ok(items) && model_items(items@) == ms && final(self).pos() == old(self).pos() + n,
                Err(e) => r == Err::<Vec<Value>, DeBencodingError>(e),
            },
        decreases old(self).remaining().len(), 1int,
    {
        proof {
            use_type_invariant(&*self);
        }
        let ghost s = self.remaining();
        let b = match self.peek_byte() {
            Ok(b) => *b,
            Err(e) => {
                return Err(e);
            },
        };
        if b == 101 {
            let _ = match self.read_byte() {
                Ok(c) => c,
                Err(e) => {
                    proof {
                        assert(false);
                    }
                    return Err(e);
                },
            };
            let items: Vec<Value> = Vec::new();
            proof {
                crate::value::lemma_model_items(items@);
                assert(model_items(items@) =~= Seq::<SpecValue>::empty());
            }
            Ok(items)
        } else {
            let v = match self.parse_value() {
                Ok(v) => v,
                Err(e) => {
                    return Err(e);
                },
            };
            proof {
                lemma_spec_decode_consumed(s);
                assert(self.remaining() =~= s.skip(self.pos() - old(self).pos()));
            }
            let mut rest = match self.parse_items() {
                Ok(r) => r,
                Err(e) => {
                    return Err(e);
                },
            };
            let ghost tail = rest@;
            let ghost vm = v.model();
            let ghost v0 = v;
            rest.insert(0, v);
            proof {
                crate::value::lemma_model_items(tail);
                crate::value::lemma_model_items(rest@);
                assert(rest@ =~= seq![v0] + tail);
                assert(model_items(rest@) =~= seq![vm] + model_items(tail));
            }
            Ok(rest)
        }
    }

    /// Decodes a run of dictionary pairs up to and including the
    /// closing tag, in wire order; keys must be byte strings.
    pub(crate) fn parse_pairs(&mut self) -> (r: Result<Vec<(Vec<u8>, Value)>, DeBencodingError>)
        ensures
            final(self).bytes() == old(self).bytes(),
            match spec_decode_pairs(old(self).remaining()) {
                Ok((ms, n)) => r matches Ok(ps) && model_pairs(ps@) == ms && final(self).pos()
                    == old(self).pos() + n,
                Err(e) => r == Err::<Vec<(Vec<u8>, Value)>, DeBencodingError>(e),
            },
        decreases old(self).remaining().len(), 1int,
    {
        proof {
            use_type_invariant(&*self);
        }
        let ghost s = self.remaining();
        let b = match self.peek_byte() {
            Ok(b) => *b,
            Err(e) => {
                return Err(e);
            },
        };
        if b == 101 {
            let _ = match self.read_byte() {
                Ok(c) => c,
                Err(e) => {
                    proof {
                        assert(false);
                    }
                    return Err(e);
                },
            };
            let pairs: Vec<(Vec<u8>, Value)> = Vec::new();
            proof {
                crate::value::lemma_model_pairs(pairs@);
                assert(model_pairs(pairs@) =~= Seq::<(Seq<u8>, SpecValue)>::empty());
            }
            Ok(pairs)
        } else if !(48 <= b && b <= 57) {
            Err(DeBencodingError::UnexpectedCharType(b as char))
        } else {
            proof {
                crate::bytes::lemma_digit_run_len_bounds(s);
            }
            let key_slice = match self.parse_bytes() {
                Ok(k) => k,
                Err(e) => {
                    return Err(e);
                },
            };
            let key = slice_to_vec(key_slice);
            let ghost n = self.pos() - old(self).pos();
            proof {
                assert(self.remaining() =~= s.skip(n));
            }
            let v = match self.parse_value() {
                Ok(v) => v,
                Err(e) => {
                    return Err(e);
                },
            };
            let ghost k = self.pos() - old(self).pos() - n;
            proof {
                lemma_spec_decode_consumed(s.skip(n));
                assert(self.remaining() =~= s.skip(n + k));
            }
            let mut rest = match self.parse_pairs() {
                Ok(r) => r,
                Err(e) => {
                    return Err(e);
                },
            };
            let ghost tail = rest@;
            let ghost km = key@;
            let ghost vm = v.model();
            let ghost p0 = (key, v);
            rest.insert(0, (key, v));
            proof {
                crate::value::lemma_model_pairs(tail);
                crate::value::lemma_model_pairs(rest@);
                assert(rest@ =~= seq![p0] + tail);
                assert(model_pairs(rest@) =~= seq![(km, vm)] + model_pairs(tail));
            }
            Ok(rest)
        }
    }

    /// True when every byte of the input has been consumed.
    pub fn done(&self) -> (r: bool)
        ensures
            r == (self.remaining().len() == 0),
    {
        proof {
            use_type_invariant(self);
        }
        self.offset == self.input.len()
    }

    /// The position of the first byte at or after the current offset
    /// that is no ASCII digit, or `None` if only digits remain.
    pub fn position_next(&self) -> (r: Option<usize>)
        ensures
            ({
                let run = digit_run_len(self.remaining());
                match r {
                    Some(p) => run < self.remaining().len() && p as int == self.pos() + run,
                    None => run == self.remaining().len(),
                }
            }),
    {
        proof {
            use_type_invariant(self);
        }
        let ghost rem = self.remaining();
        let mut k: usize = self.offset;
        loop
            invariant
                self.offset <= k <= self.input@.len(),
                self.inv(),
                rem == self.remaining(),
                forall|j: int|
                    self.offset <= j < k ==> is_digit_byte(#[trigger] self.input@[j]),
            ensures
                self.offset <= k <= self.input@.len(),
                forall|j: int|
                    self.offset <= j < k ==> is_digit_byte(#[trigger] self.input@[j]),
                k == self.input@.len() || !is_digit_byte(self.input@[k as int]),
            decreases self.input@.len() - k,
        {
            if k == self.input.len() {
                break;
            }
            let b = *slice_index_get(self.input, k);
            if !(48 <= b && b <= 57) {
                break;
            }
            k = k + 1;
        }
        proof {
            assert forall|j: int| 0 <= j < k - self.pos() implies is_digit_byte(
                #[trigger] rem[j],
            ) by {
                assert(rem[j] == self.input@[j + self.pos()]);
            }
            if (k as int) < self.input@.len() {
                assert(rem[k - self.pos()] == self.input@[k as int]);
            }
            crate::bytes::lemma_digit_run_len_from(rem, k - self.pos());
        }
        if k == self.input.len() {
            None
        } else {
            Some(k)
        }
    }
}

/// Decodes exactly one value from `s`: the whole input must be
/// consumed, and any bytes after a complete top-level value are a
/// `TrailingCharacters` failure.
pub fn from_bytes(s: &[u8]) -> (r: Result<Value, DeBencodingError>)
    ensures
        match spec_decode_value(s@) {
            Ok((m, n)) => {
                if n == s@.len() {
                    r matches Ok(v) && v.model() == m
                } else {
                    r == Err::<Value, DeBencodingError>(DeBencodingError::TrailingCharacters)
                }
            },
            Err(e) => r == Err::<Value, DeBencodingError>(e),
        },
{
    let mut deserializer = Deserializer::from_bytes(s);
    proof {
        assert(deserializer.remaining() =~= s@);
    }
    let t = match deserializer.parse_value() {
        Ok(t) => t,
        Err(e) => {
            return Err(e);
        },
    };
    if deserializer.offset == deserializer.input.len() {
        Ok(t)
    } else {
        Err(DeBencodingError::TrailingCharacters)
    }
}

/// Decodes exactly one value from the UTF-8 bytes of `s`, demanding
/// that the whole input is consumed.
pub fn from_str(s: &str) -> (r: Result<Value, DeBencodingError>)
    ensures
        match spec_decode_value(s.spec_bytes()) {
            Ok((m, n)) => {
                if n == s.spec_bytes().len() {
                    r matches Ok(v) && v.model() == m
                } else {
                    r == Err::<Value, DeBencodingError>(DeBencodingError::TrailingCharacters)
                }
            },
            Err(e) => r == Err::<Value, DeBencodingError>(e),
        },
{
    from_bytes(s.as_bytes())
}

} // verus!
