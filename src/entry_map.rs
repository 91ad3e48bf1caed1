//! The archive's entries, keyed by ID in table order, held in an `indexmap::IndexMap`.

use indexmap::IndexMap;
use vstd::prelude::*;

use crate::entry::MagesEntry;

verus! {

#[verifier::external_type_specification]
#[verifier::external_body]
#[verifier::reject_recursive_types(K)]
#[verifier::reject_recursive_types(V)]
#[verifier::reject_recursive_types(S)]
pub struct ExIndexMap<K, V, S>(IndexMap<K, V, S>);

/// The key-value pairs of an entry map, in the map's order.
pub uninterp spec fn map_pairs(m: IndexMap<u32, MagesEntry>) -> Seq<(u32, MagesEntry)>;

/// The pairs after inserting `v` under `k`: an existing key keeps its place and
/// takes the new value; a new key goes last.
pub open spec fn pairs_inserted(s: Seq<(u32, MagesEntry)>, k: u32, v: MagesEntry) -> Seq<
    (u32, MagesEntry),
> {
    if exists|i: int| 0 <= i < s.len() && s[i].0 == k {
        let i = choose|i: int| 0 <= i < s.len() && s[i].0 == k;
        s.update(i, (k, v))
    } else {
        s.push((k, v))
    }
}

/// Whether some pair has the key `k`.
pub open spec fn pairs_have_key(s: Seq<(u32, MagesEntry)>, k: u32) -> bool {
    exists|i: int| 0 <= i < s.len() && s[i].0 == k
}

/// Whether some pair holds `v` under the key `k`.
pub open spec fn pairs_hold(s: Seq<(u32, MagesEntry)>, k: u32, v: MagesEntry) -> bool {
    exists|i: int| 0 <= i < s.len() && s[i].0 == k && s[i].1 == v
}

/// Relies on `IndexMap::new`: the map is empty.
#[verifier::external_body]
pub(crate) fn map_new() -> (r: IndexMap<u32, MagesEntry>)
    ensures
        map_pairs(r) == Seq::<(u32, MagesEntry)>::empty(),
{
    IndexMap::new()
}

/// Relies on `IndexMap::insert`: an existing key keeps its place and takes the
/// new value; a new key goes last.
#[verifier::external_body]
pub(crate) fn map_insert(m: &mut IndexMap<u32, MagesEntry>, k: u32, v: MagesEntry)
    ensures
        map_pairs(*final(m)) == pairs_inserted(map_pairs(*old(m)), k, v),
{
    m.insert(k, v);
}

/// Relies on `IndexMap::get`: the value stored under `k`, if any.
#[verifier::external_body]
pub(crate) fn map_get(m: &IndexMap<u32, MagesEntry>, k: u32) -> (r: Option<&MagesEntry>)
    ensures
        r is Some <==> pairs_have_key(map_pairs(*m), k),
        r matches Some(v) ==> pairs_hold(map_pairs(*m), k, *v),
{
    m.get(&k)
}

/// Relies on `IndexMap::get_index`: the value at position `i` of the map's order.
#[verifier::external_body]
pub(crate) fn map_get_index(m: &IndexMap<u32, MagesEntry>, i: usize) -> (r: Option<&MagesEntry>)
    ensures
        r is Some <==> i < map_pairs(*m).len(),
        r matches Some(v) ==> *v == map_pairs(*m)[i as int].1,
{
    m.get_index(i).map(|(_, v)| v)
}

/// Relies on `IndexMap::len`: the number of pairs.
#[verifier::external_body]
pub(crate) fn map_len(m: &IndexMap<u32, MagesEntry>) -> (r: usize)
    ensures
        r == map_pairs(*m).len(),
{
    m.len()
}

} // verus!
