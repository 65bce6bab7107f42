use std::collections::BTreeMap;

use serde_pickle::{DeOptions, HashableValue, SerOptions, Value};
use vstd::prelude::*;

use crate::error::RpaError;

verus! {

/// A decoded pickle value of `serde_pickle`; only the conversions below look
/// inside it.
#[verifier::external_type_specification]
#[verifier::external_body]
pub struct ExPickle(serde_pickle::Value);

/// The part of a pickled value that the index format reads.
///
/// Integers that fit in 64 bits, byte strings, text strings and lists are
/// kept; any other value (none, booleans, floats, sets,
/// dictionaries, big integers) is `Other`.
#[derive(Debug)]
pub enum PickleValue {
    /// A signed integer.
    Int(i64),
    /// A byte string.
    Bytes(Vec<u8>),
    /// A text string.
    Str(String),
    /// A list (a tuple is read as a list).
    List(Vec<PickleValue>),
    /// Any other value; written back as `None`.
    Other,
}

/// The index that a pickled dictionary of path strings holds, or `None` when
/// the bytes are not such a dictionary.
pub uninterp spec fn unpickled_index(data: Seq<u8>) -> Option<Map<Seq<char>, PickleValue>>;

/// The protocol-2 pickle of an index dictionary.
pub uninterp spec fn pickled_index(index: Map<Seq<char>, PickleValue>) -> Seq<u8>;

/// The map that a list of entries describes; a later entry under a key
/// replaces an earlier one.
pub open spec fn entries_map<V>(s: Seq<(Seq<char>, V)>) -> Map<Seq<char>, V>
    decreases s.len(),
{
    if s.len() == 0 {
        Map::empty()
    } else {
        entries_map(s.drop_last()).insert(s.last().0, s.last().1)
    }
}

/// No key stands twice among the entries.
pub open spec fn keys_unique<V>(s: Seq<(Seq<char>, V)>) -> bool {
    forall|i: int, j: int| 0 <= i < j < s.len() ==> s[i].0 != s[j].0
}

/// The entries with their keys viewed as character sequences.
pub open spec fn entries_view<V>(s: Seq<(String, V)>) -> Seq<(Seq<char>, V)> {
    s.map_values(|e: (String, V)| (e.0@, e.1))
}

/// Relies on `serde_pickle::from_slice` decoding a pickled dictionary of
/// strings into an ordered `BTreeMap`, whose keys are unique; each value is
/// carried over by `from_pickle`. The result depends on the bytes alone.
#[verifier::external_body]
pub(crate) fn unpickle_index(data: &[u8]) -> (r: Option<Vec<(String, PickleValue)>>)
    ensures
        r is Some <==> unpickled_index(data@) is Some,
        r matches Some(v) ==> keys_unique(entries_view(v@)) && entries_map(entries_view(v@))
            == unpickled_index(data@)->Some_0,
{
    let decoded: Result<BTreeMap<String, Value>, serde_pickle::Error> = serde_pickle::from_slice(
        data,
        DeOptions::new(),
    );
    decoded.ok().map(|m| m.into_iter().map(|(k, v)| (k, from_pickle(v))).collect())
}

/// Relies on `serde_pickle::value_to_vec` with protocol 2: it writes into a
/// `Vec` and has no failing path for these values; the bytes depend on the
/// dictionary alone, and `serde_pickle::from_slice` reads back the same
/// dictionary (integers as `I64`, byte strings through `_codecs.encode`,
/// `None` as `None`, lists as lists). A later entry under a key replaces an
/// earlier one, as in `BTreeMap::from_iter`.
#[verifier::external_body]
pub(crate) fn pickle_index(entries: Vec<(String, PickleValue)>) -> (r: Result<Vec<u8>, RpaError>)
    ensures
        r is Ok,
        r matches Ok(b) ==> b@ == pickled_index(entries_map(entries_view(entries@)))
            && unpickled_index(b@) == Some(entries_map(entries_view(entries@))),
{
    let dict = Value::Dict(
        entries.into_iter().map(|(k, v)| (HashableValue::String(k), into_pickle(v))).collect(),
    );
    match serde_pickle::value_to_vec(&dict, SerOptions::new().proto_v2()) {
        Ok(bytes) => Ok(bytes),
        Err(serde_pickle::Error::Io(e)) => Err(RpaError::Io(e)),
        Err(_) => Err(RpaError::SerializeRecord),
    }
}

/// Carries a decoded `serde_pickle::Value` over, variant for variant.
#[verifier::external_body]
fn from_pickle(v: Value) -> PickleValue {
    match v {
        Value::I64(n) => PickleValue::Int(n),
        Value::Bytes(b) => PickleValue::Bytes(b),
        Value::String(s) => PickleValue::Str(s),
        Value::List(items) => PickleValue::List(items.into_iter().map(from_pickle).collect()),
        _ => PickleValue::Other,
    }
}

/// Carries a value over into a `serde_pickle::Value`, variant for variant.
#[verifier::external_body]
fn into_pickle(v: PickleValue) -> Value {
    match v {
        PickleValue::Int(n) => Value::I64(n),
        PickleValue::Bytes(b) => Value::Bytes(b),
        PickleValue::Str(s) => Value::String(s),
        PickleValue::List(items) => Value::List(items.into_iter().map(into_pickle).collect()),
        PickleValue::Other => Value::None,
    }
}

} // verus!

verus! {

/// The index of the last entry under `k`, or -1 when there is none.
pub open spec fn key_index<V>(s: Seq<(Seq<char>, V)>, k: Seq<char>) -> int
    decreases s.len(),
{
    if s.len() == 0 {
        -1
    } else if s.last().0 == k {
        s.len() - 1
    } else {
        key_index(s.drop_last(), k)
    }
}

pub proof fn lemma_key_index<V>(s: Seq<(Seq<char>, V)>, k: Seq<char>)
    ensures
        -1 <= key_index(s, k) < s.len(),
        key_index(s, k) >= 0 ==> s[key_index(s, k)].0 == k,
        key_index(s, k) == -1 <==> forall|i: int| 0 <= i < s.len() ==> s[i].0 != k,
        key_index(s, k) == -1 <==> !entries_map(s).contains_key(k),
        key_index(s, k) >= 0 ==> entries_map(s)[k] == s[key_index(s, k)].1,
    decreases s.len(),
{
    if s.len() > 0 {
        lemma_key_index(s.drop_last(), k);
        if s.last().0 != k {
            assert forall|i: int| 0 <= i < s.len() - 1 implies s[i] == s.drop_last()[i] by {}
        }
    }
}

pub proof fn lemma_key_index_unique<V>(s: Seq<(Seq<char>, V)>, j: int)
    requires
        keys_unique(s),
        0 <= j < s.len(),
    ensures
        key_index(s, s[j].0) == j,
    decreases s.len(),
{
    if j < s.len() - 1 {
        assert(s.drop_last()[j] == s[j]);
        lemma_key_index_unique(s.drop_last(), j);
    }
}

} // verus!

verus! {

pub proof fn lemma_key_index_same_keys<A, B>(s: Seq<(Seq<char>, A)>, t: Seq<(Seq<char>, B)>, k: Seq<char>)
    requires
        s.len() == t.len(),
        forall|i: int| 0 <= i < s.len() ==> (#[trigger] s[i]).0 == t[i].0,
    ensures
        key_index(s, k) == key_index(t, k),
    decreases s.len(),
{
    if s.len() > 0 {
        assert(s.last().0 == t[t.len() - 1].0);
        assert forall|i: int| 0 <= i < s.len() - 1 implies (#[trigger] s.drop_last()[i]).0 == t.drop_last()[i].0 by {
            assert(s.drop_last()[i] == s[i]);
            assert(t.drop_last()[i] == t[i]);
        }
        lemma_key_index_same_keys(s.drop_last(), t.drop_last(), k);
    }
}

} // verus!
