//! The insertion-ordered map (`indexmap::IndexMap`) behind the state cache,
//! keyed by integer triples and holding framed commands.

use vstd::prelude::*;
use indexmap::IndexMap;

verus! {

#[verifier::external_type_specification]
#[verifier::external_body]
#[verifier::reject_recursive_types(K)]
#[verifier::reject_recursive_types(V)]
#[verifier::reject_recursive_types(S)]
pub struct ExIndexMap<K, V, S>(IndexMap<K, V, S>);

/// Key of a cached command: name code, identity length, identity code.
pub type StateKey = (u32, u8, u32);

/// The entries of the map, in the map's order.
pub uninterp spec fn index_map_entries(m: IndexMap<(u32, u8, u32), Vec<u8>>) -> Seq<((u32, u8, u32), Seq<u8>)>;

/// Some position holding key `k`.
pub open spec fn has_key(es: Seq<(StateKey, Seq<u8>)>, k: StateKey) -> bool {
    exists|i: int| 0 <= i < es.len() && es[i].0 == k
}

/// A position holding key `k`, when there is one.
pub open spec fn key_position(es: Seq<(StateKey, Seq<u8>)>, k: StateKey) -> int {
    choose|i: int| 0 <= i < es.len() && es[i].0 == k
}

/// The chosen position of a present key holds that key.
pub proof fn lemma_key_position(es: Seq<(StateKey, Seq<u8>)>, k: StateKey)
    requires
        has_key(es, k),
    ensures
        0 <= key_position(es, k) < es.len(),
        es[key_position(es, k)].0 == k,
{
}

/// `IndexMap::insert` on entries: an existing key keeps its place and takes the new
/// value; a new key goes last.
pub open spec fn entries_insert(es: Seq<(StateKey, Seq<u8>)>, k: StateKey, v: Seq<u8>) -> Seq<
    (StateKey, Seq<u8>),
> {
    if has_key(es, k) {
        es.update(key_position(es, k), (k, v))
    } else {
        es.push((k, v))
    }
}

/// Calls `IndexMap::new`, which makes an empty map.
#[verifier::external_body]
pub(crate) fn index_map_new() -> (m: IndexMap<(u32, u8, u32), Vec<u8>>)
    ensures
        index_map_entries(m) == Seq::<(StateKey, Seq<u8>)>::empty(),
{
    IndexMap::new()
}

/// Calls `IndexMap::len`: the number of entries.
#[verifier::external_body]
pub(crate) fn index_map_len(m: &IndexMap<(u32, u8, u32), Vec<u8>>) -> (r: usize)
    ensures
        r == index_map_entries(*m).len(),
{
    m.len()
}

/// Calls `IndexMap::insert`. Its documentation: an existing key remains in its
/// place in the order and its value is replaced; otherwise the pair is inserted
/// last in order. The returned previous value is dropped.
#[verifier::external_body]
pub(crate) fn index_map_insert(m: &mut IndexMap<(u32, u8, u32), Vec<u8>>, key: (u32, u8, u32), value: Vec<u8>)
    ensures
        index_map_entries(*final(m)) == entries_insert(index_map_entries(*old(m)), key, value@),
{
    m.insert(key, value);
}

/// Calls `IndexMap::values` and clones each value: the values in the map's order.
#[verifier::external_body]
pub(crate) fn index_map_values(m: &IndexMap<(u32, u8, u32), Vec<u8>>) -> (r: Vec<Vec<u8>>)
    ensures
        r@.len() == index_map_entries(*m).len(),
        forall|i: int| 0 <= i < r@.len() ==> (#[trigger] r@[i])@ == index_map_entries(*m)[i].1,
{
    m.values().cloned().collect()
}

} // verus!
