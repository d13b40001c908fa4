//! The in-memory tree that the codec reads and writes: a closed set of
//! tagged variants, one per wire shape, together with its mathematical
//! model.

use vstd::prelude::*;
use crate::dict::Dict;

verus! {

/// The mathematical model of a decoded value: integers are unbounded,
/// byte strings and containers are sequences.
pub enum SpecValue {
    /// An integer.
    Int(int),
    /// A byte string; it need not be valid text.
    Str(Seq<u8>),
    /// A list of values in wire order.
    List(Seq<SpecValue>),
    /// A dictionary as a sequence of key/value pairs in ascending key order.
    Dict(Seq<(Seq<u8>, SpecValue)>),
}

/// A value of the wire format: a byte string, an integer, a list of
/// values, or a dictionary with byte-string keys.
///
/// This closed set of variants is the generic data model the engine
/// decodes into and encodes from; the typed layer in [`crate::bencode`]
/// projects it onto strings, integers, vectors and dictionaries.
#[derive(Debug, PartialEq, Eq)]
pub enum Value {
    /// An integer, `i<decimal>e` on the wire.
    Int(i64),
    /// A byte string, `<length>:<bytes>` on the wire.
    Str(Vec<u8>),
    /// A list, `l<item>*e` on the wire.
    List(Vec<Value>),
    /// A dictionary, `d(<key><value>)*e` on the wire, keys kept sorted.
    Dict(Dict),
}

impl Value {
    /// The mathematical model of this value.
    pub open spec fn model(self) -> SpecValue
        decreases self,
    {
        match self {
            Value::Int(i) => SpecValue::Int(i as int),
            Value::Str(b) => SpecValue::Str(b@),
            Value::List(items) => SpecValue::List(model_items(items@)),
            Value::Dict(d) => SpecValue::Dict(d.model()),
        }
    }
}

/// The models of a sequence of values, element by element.
pub open spec fn model_items(s: Seq<Value>) -> Seq<SpecValue>
    decreases s,
{
    if s.len() == 0 {
        Seq::empty()
    } else {
        model_items(s.drop_last()).push(s.last().model())
    }
}

/// The models of a sequence of key/value pairs, pair by pair.
pub open spec fn model_pairs(s: Seq<(Vec<u8>, Value)>) -> Seq<(Seq<u8>, SpecValue)>
    decreases s,
{
    if s.len() == 0 {
        Seq::empty()
    } else {
        model_pairs(s.drop_last()).push((s.last().0@, s.last().1.model()))
    }
}

/// A modelled sequence has the same length, and models its elements
/// one for one.
pub broadcast proof fn lemma_model_items(s: Seq<Value>)
    ensures
        (#[trigger] model_items(s)).len() == s.len(),
        forall|i: int| 0 <= i < s.len() ==> model_items(s)[i] == s[i].model(),
    decreases s.len(),
{
    if s.len() > 0 {
        lemma_model_items(s.drop_last());
    }
}

/// A modelled pair sequence has the same length, and models its pairs
/// one for one.
pub broadcast proof fn lemma_model_pairs(s: Seq<(Vec<u8>, Value)>)
    ensures
        (#[trigger] model_pairs(s)).len() == s.len(),
        forall|i: int|
            0 <= i < s.len() ==> model_pairs(s)[i] == (s[i].0@, s[i].1.model()),
    decreases s.len(),
{
    if s.len() > 0 {
        lemma_model_pairs(s.drop_last());
    }
}

} // verus!
