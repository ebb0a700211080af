//! The insertion-ordered maps of the `indexmap` crate that the library keeps.
//!
//! What a map holds is named by a specification function, as the sequence of
//! its entries in iteration order. The map operations the library calls are
//! stated over that name; their statements are taken from the documentation
//! of `indexmap` and are not proved here.

use vstd::prelude::*;
use indexmap::IndexMap;

verus! {

/// `indexmap::IndexMap`: a map that keeps its entries in the order in which
/// their keys were first inserted.
#[verifier::external_type_specification]
#[verifier::external_body]
#[verifier::reject_recursive_types(K)]
#[verifier::reject_recursive_types(V)]
#[verifier::reject_recursive_types(S)]
pub struct ExIndexMap<K, V, S>(IndexMap<K, V, S>);

/// The entries of a map from query index to probability, in iteration order.
pub uninterp spec fn dist_entries(m: IndexMap<usize, u64>) -> Seq<(usize, u64)>;

/// No key occurs twice among the entries.
pub open spec fn distinct_keys(s: Seq<(usize, u64)>) -> bool {
    forall|i: int, j: int| 0 <= i < j < s.len() ==> (#[trigger] s[i]).0 != (#[trigger] s[j]).0
}

/// Some entry has the key `k`.
pub open spec fn has_key(s: Seq<(usize, u64)>, k: usize) -> bool {
    exists|i: int| 0 <= i < s.len() && (#[trigger] s[i]).0 == k
}

/// The place of an entry with key `k`, where there is one.
pub open spec fn key_index(s: Seq<(usize, u64)>, k: usize) -> int {
    choose|i: int| 0 <= i < s.len() && (#[trigger] s[i]).0 == k
}

/// The value stored under `k`, if any.
pub open spec fn lookup(s: Seq<(usize, u64)>, k: usize) -> Option<u64> {
    if has_key(s, k) {
        Some(s[key_index(s, k)].1)
    } else {
        None
    }
}

/// `IndexMap::get`: the value stored under `k`, or `None` where the map has
/// no such key.
#[verifier::external_body]
pub(crate) fn dist_get(m: &IndexMap<usize, u64>, k: usize) -> (r: Option<u64>)
    ensures
        r == lookup(dist_entries(*m), k),
{
    m.get(&k).copied()
}

/// `IndexMap::clone`: the copy holds the same entries in the same order.
#[verifier::external_body]
pub(crate) fn dist_clone(m: &IndexMap<usize, u64>) -> (r: IndexMap<usize, u64>)
    ensures
        dist_entries(r) == dist_entries(*m),
{
    m.clone()
}

/// `IndexMap::iter`: the entries in their order. A map holds each key once.
#[verifier::external_body]
pub(crate) fn dist_items(m: &IndexMap<usize, u64>) -> (r: Vec<(usize, u64)>)
    ensures
        r@ == dist_entries(*m),
        distinct_keys(r@),
{
    m.iter().map(|(k, v)| (*k, *v)).collect()
}

/// Where the keys are distinct, the entry found under a key is the one at
/// any place that holds the key.
pub proof fn lemma_lookup_at(s: Seq<(usize, u64)>, i: int)
    requires
        distinct_keys(s),
        0 <= i < s.len(),
    ensures
        has_key(s, s[i].0),
        key_index(s, s[i].0) == i,
        lookup(s, s[i].0) == Some(s[i].1),
{
    let k = s[i].0;
    assert(has_key(s, k));
    let j = key_index(s, k);
    assert(0 <= j < s.len() && s[j].0 == k);
    if j < i {
        assert(s[j].0 != s[i].0);
    } else if i < j {
        assert(s[i].0 != s[j].0);
    }
}

} // verus!
