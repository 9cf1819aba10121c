//! The endpoint lookup tables used when joining polylines: `rustc_hash` maps from a
//! quantized endpoint to a line slot.
use vstd::prelude::*;
use rustc_hash::FxBuildHasher;
use rustc_hash::FxHashMap;

verus! {

#[verifier::external_type_specification]
#[verifier::external_body]
pub struct ExFxBuildHasher(FxBuildHasher);

/// A quantized polyline endpoint (coordinates in millimetres).
pub type EndKey = (i64, i64);

/// A table from a quantized endpoint to the slot registered there.
pub type SlotTable = FxHashMap<EndKey, usize>;

/// What an endpoint table holds: the slot registered for each endpoint.
pub uninterp spec fn slot_table(m: SlotTable) -> Map<EndKey, usize>;

/// The table with no endpoint registered.
pub open spec fn no_slots() -> Map<EndKey, usize> {
    Map::empty()
}

/// `FxHashMap::default()`: the new table holds nothing.
#[verifier::external_body]
pub(crate) fn slot_table_new() -> (table: SlotTable)
    ensures
        slot_table(table) == no_slots(),
{
    FxHashMap::default()
}

/// `HashMap::get` on a slot table: the registered slot, if there is one.
#[verifier::external_body]
pub(crate) fn slot_table_get(m: &SlotTable, k: &EndKey) -> (r: Option<usize>)
    ensures
        match r {
            Some(v) => slot_table(*m).contains_key(*k) && v == slot_table(*m)[*k],
            None => !slot_table(*m).contains_key(*k),
        },
{
    m.get(k).copied()
}

/// `HashMap::insert` on a slot table: `k` now maps to `v`, every other entry is kept.
#[verifier::external_body]
pub(crate) fn slot_table_insert(m: &mut SlotTable, k: EndKey, v: usize)
    ensures
        slot_table(*final(m)) == slot_table(*old(m)).insert(k, v),
{
    m.insert(k, v);
}

} // verus!
