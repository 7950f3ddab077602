//! The write path's use of shape records: only key lists that are long enough
//! are indexed.

use vstd::prelude::*;

use crate::heap::Heap;
use crate::keys::{array_length, dense_slots, js_array_length};
use crate::shapes::{
    after_id, append_noted, found_slot, looked_up, shape_note_append, shape_slot_lookup,
    slot_holds, test_seed_shape_entry, test_shape_entry_exists, newborn, next_id, ShapeIds,
    ShapeTable,
};

verus! {

/// Below this many keys a scan is faster than an index.
pub const KEYS_INDEX_THRESHOLD: u32 = 32;

/// Looks `key` up through the record of `keys`, which is made if need be. A
/// slot that is returned holds `key`; `None` sends the caller to its own scan.
pub fn keys_index_lookup(
    table: &mut ShapeTable,
    ids: &mut ShapeIds,
    heap: &Heap,
    keys: usize,
    key: &[u8],
    key_hash: u64,
) -> (r: Option<u32>)
    requires
        old(ids).wf(),
        heap.wf(),
    ensures
        final(ids).wf(),
        ({
            let count = array_length(heap@, keys);
            if count < KEYS_INDEX_THRESHOLD {
                &&& r is None
                &&& final(table)@ == old(table)@
                &&& final(ids).next == old(ids).next
            } else {
                &&& r == found_slot(
                    old(table)@,
                    old(ids).next,
                    heap@,
                    keys,
                    key@,
                    key_hash,
                    count,
                    true,
                )
                &&& final(table)@ == looked_up(
                    old(table)@,
                    old(ids).next,
                    heap@,
                    keys,
                    count,
                    true,
                )
                &&& final(ids).next == (if old(table)@.contains_key(keys) {
                    old(ids).next
                } else {
                    after_id(old(ids).next)
                })
            }
        }),
        r matches Some(slot) ==> slot_holds(
            heap@,
            dense_slots(heap@, keys),
            key@,
            array_length(heap@, keys),
            slot,
        ),
{
    let key_count = js_array_length(heap, keys);
    if key_count < KEYS_INDEX_THRESHOLD {
        return None;
    }
    shape_slot_lookup(table, ids, heap, keys, key, key_hash, key_count, true)
}

/// Records a key that was appended to `keys`, which has `new_count` keys now.
pub fn keys_index_insert(
    table: &mut ShapeTable,
    keys: usize,
    new_count: u32,
    key_hash: u64,
    slot: u32,
)
    ensures
        final(table)@ == (if new_count < KEYS_INDEX_THRESHOLD {
            old(table)@
        } else {
            append_noted(old(table)@, keys, new_count, key_hash, slot)
        }),
{
    if new_count < KEYS_INDEX_THRESHOLD {
        return;
    }
    shape_note_append(table, keys, new_count, key_hash, slot);
}

/// Gives `owner` a fresh record.
pub fn test_seed_keys_index_entry(table: &mut ShapeTable, ids: &mut ShapeIds, owner: usize)
    requires
        old(ids).wf(),
    ensures
        final(ids).wf(),
        final(ids).next == after_id(old(ids).next),
        final(table)@ == old(table)@.insert(owner, newborn(next_id(old(ids).next))),
{
    test_seed_shape_entry(table, ids, owner);
}

/// Is there a record for `owner`?
pub fn test_keys_index_entry_exists(table: &ShapeTable, owner: usize) -> (r: bool)
    ensures
        r == table@.contains_key(owner),
{
    test_shape_entry_exists(table, owner)
}

} // verus!
