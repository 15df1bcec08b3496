//! The ordered multimap that backs the output collection and the size index:
//! `btreemultimap::BTreeMultiMap`, seen by the proofs as a `Map` from key to
//! the sequence of that key's values in insertion order.
use vstd::prelude::*;

use btreemultimap::BTreeMultiMap;

verus! {

/// A multimap from `u64` keys to strings, ordered by key.
pub type OrderedMultiMap = BTreeMultiMap<u64, String>;

#[verifier::external_type_specification]
#[verifier::external_body]
#[verifier::reject_recursive_types(K)]
#[verifier::reject_recursive_types(V)]
pub struct ExBTreeMultiMap<K, V>(BTreeMultiMap<K, V>);

/// What a `BTreeMultiMap<u64, String>` holds: for each key present, the
/// sequence of its values in insertion order.
pub uninterp spec fn mm_view(m: OrderedMultiMap) -> Map<u64, Seq<Seq<char>>>;

/// The contents after inserting `t` under `k`: appended to the key's
/// sequence, a missing key getting a fresh one-element sequence.
pub open spec fn mm_insert_spec(mv: Map<u64, Seq<Seq<char>>>, k: u64, t: Seq<char>) -> Map<
    u64,
    Seq<Seq<char>>,
> {
    if mv.contains_key(k) {
        mv.insert(k, mv[k].push(t))
    } else {
        mv.insert(k, seq![t])
    }
}

/// An entry listing of contents `mv`: keys strictly ascending, every listed
/// key present with exactly its value sequence, and every key of `mv` listed.
pub open spec fn is_entries_of(es: Seq<(u64, Seq<Seq<char>>)>, mv: Map<u64, Seq<Seq<char>>>) -> bool {
    &&& forall|i: int, j: int| 0 <= i < j < es.len() ==> (#[trigger] es[i]).0 < (#[trigger] es[j]).0
    &&& forall|i: int|
        0 <= i < es.len() ==> mv.contains_key((#[trigger] es[i]).0) && es[i].1 == mv[es[i].0]
    &&& forall|k: u64|
        #[trigger] mv.contains_key(k) ==> exists|i: int| 0 <= i < es.len() && (#[trigger] es[i]).0 == k
}

/// The empty contents.
pub open spec fn mm_empty() -> Map<u64, Seq<Seq<char>>> {
    Map::empty()
}

/// Relies on `BTreeMultiMap::new`: the fresh multimap is empty.
#[verifier::external_body]
pub fn mm_new() -> (m: OrderedMultiMap)
    ensures
        mm_view(m) == mm_empty(),
{
    BTreeMultiMap::new()
}

/// Relies on `BTreeMultiMap::insert`: the value is pushed onto the key's
/// vector, a missing key getting a fresh one-element vector.
#[verifier::external_body]
pub fn mm_insert(m: &mut OrderedMultiMap, k: u64, v: String)
    ensures
        mm_view(*final(m)) == mm_insert_spec(mm_view(*old(m)), k, v@),
{
    m.insert(k, v);
}

/// Relies on `BTreeMultiMap`'s by-value `IntoIterator`, which walks the
/// underlying `std::collections::BTreeMap`: one `(key, values)` pair per
/// present key, keys in ascending order, values in insertion order.
#[verifier::external_body]
pub fn mm_entries(m: OrderedMultiMap) -> (r: Vec<(u64, Vec<String>)>)
    ensures
        is_entries_of(r.deep_view(), mm_view(m)),
{
    let mut r = Vec::new();
    for (k, vals) in m {
        r.push((k, vals));
    }
    r
}

} // verus!
