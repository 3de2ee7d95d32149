//! The table from a bot's id to its place among a snapshot's alive bots,
//! held in an `ahash` map.

use vstd::prelude::*;
use ahash::AHashMap;

verus! {

#[verifier::external_type_specification]
#[verifier::external_body]
#[verifier::reject_recursive_types(K)]
#[verifier::reject_recursive_types(V)]
#[verifier::reject_recursive_types(S)]
pub struct ExAHashMap<K, V, S>(AHashMap<K, V, S>);

#[verifier::external_type_specification]
#[verifier::external_body]
pub struct ExRandomState(ahash::RandomState);

/// What an id table holds: id to index.
pub uninterp spec fn id_index_entries(m: AHashMap<u64, u8>) -> Map<u64, u8>;

/// The table with no entries.
pub open spec fn empty_index() -> Map<u64, u8> {
    Map::empty()
}

/// Relies on `ahash::AHashMap::new`: a map with no entries.
#[verifier::external_body]
pub(crate) fn id_index_new() -> (r: AHashMap<u64, u8>)
    ensures
        id_index_entries(r) == empty_index(),
{
    AHashMap::new()
}

/// Relies on `ahash::AHashMap::insert`, which forwards to std's
/// `HashMap::insert`: afterwards the key maps to the value and every other key
/// keeps its entry.
#[verifier::external_body]
pub(crate) fn id_index_insert(m: &mut AHashMap<u64, u8>, id: u64, idx: u8)
    ensures
        id_index_entries(*final(m)) == id_index_entries(*old(m)).insert(id, idx),
{
    m.insert(id, idx);
}

/// Relies on `ahash::AHashMap::get`, which forwards to std's `HashMap::get`:
/// the value under the key, if there is one.
#[verifier::external_body]
pub(crate) fn id_index_get(m: &AHashMap<u64, u8>, id: u64) -> (r: Option<u8>)
    ensures
        r == (if id_index_entries(*m).contains_key(id) {
            Some(id_index_entries(*m)[id])
        } else {
            None
        }),
{
    m.get(&id).copied()
}

} // verus!
