//! Handles and the table that issues them.
//!
//! A handle is a generation-tagged 64-bit value issued by a `slotmap::SlotMap`.
//! The table maps every handle it has issued to the position of the node the
//! handle was issued for; the nodes themselves live in a dense vector.
use slotmap::{DefaultKey, Key, KeyData, SlotMap};
use vstd::prelude::*;

verus! {

/// The largest number of handles one table can issue.
pub const MAX_NODES: usize = 0xffff_fffe;

/// The bit that is set in every handle the table issues: the lowest bit of the
/// generation, which occupies the upper half of the handle.
pub const GENERATION_BIT: u64 = 0x1_0000_0000;

/// Stable identifier of a node, valid for the lifetime of the sequencer that
/// issued it.
#[derive(Clone, Copy, Debug, PartialEq, Eq, Structural, Hash)]
pub struct SeqKey {
    pub(crate) raw: u64,
}

/// The handle table: a `slotmap::SlotMap` from handles to node positions.
///
/// The table only ever grows: nothing is removed from it. Verus cannot be told
/// of `SlotMap` itself, whose key parameter is bound by a trait of that crate,
/// so the map is held in a struct that Verus does not look into. What the
/// table holds is known through `table_slots` alone.
#[derive(Debug)]
#[verifier::external_body]
pub struct HandleTable {
    slots: SlotMap<DefaultKey, usize>,
}

/// The contents of a handle table: the position stored under each issued
/// handle, the handle written as the 64-bit value `KeyData::as_ffi` gives.
pub uninterp spec fn table_slots(table: HandleTable) -> Map<u64, usize>;

/// Calls `SlotMap::with_key`. The new table holds no handle.
#[verifier::external_body]
pub(crate) fn table_new() -> (fresh: HandleTable)
    ensures
        table_slots(fresh).dom() == Set::<u64>::empty(),
{
    HandleTable { slots: SlotMap::with_key() }
}

/// Calls `SlotMap::insert` and converts the key with `KeyData::as_ffi`.
///
/// `insert` panics once the map holds `MAX_NODES` values, so fuller tables are
/// left out. The key it returns belongs to no value the map already holds, its
/// generation is odd (an occupied slot), and afterwards the map holds
/// `position` under that key and everything it held before.
#[verifier::external_body]
pub(crate) fn table_insert(table: &mut HandleTable, position: usize) -> (key: SeqKey)
    requires
        table_slots(*old(table)).dom().len() < MAX_NODES,
    ensures
        key.raw & GENERATION_BIT != 0,
        !table_slots(*old(table)).dom().contains(key.raw),
        table_slots(*final(table)) == table_slots(*old(table)).insert(key.raw, position),
{
    SeqKey { raw: table.slots.insert(position).data().as_ffi() }
}

/// Calls `SlotMap::get` on the key that `KeyData::from_ffi` makes of `key`.
///
/// `from_ffi` forces the generation to be odd, so the key looked up is the one
/// whose 64-bit value is `key` with `GENERATION_BIT` set. The result is the
/// position stored under that key, if the map holds it.
#[verifier::external_body]
pub(crate) fn table_get(table: &HandleTable, key: SeqKey) -> (position: Option<usize>)
    ensures
        position == (if table_slots(*table).dom().contains(key.raw | GENERATION_BIT) {
            Some(table_slots(*table)[key.raw | GENERATION_BIT])
        } else {
            None
        }),
{
    table.slots.get(DefaultKey::from(KeyData::from_ffi(key.raw))).copied()
}

} // verus!
