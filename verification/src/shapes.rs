//! Shape records, keyed by the identity of a keys array.
//!
//! A keys array is a shape: whoever changes a shared one works on a private
//! clone, so equal addresses mean equal key lists. A record gives the shape a
//! stable id and indexes its keys by content hash.
//!
//! Records accelerate and never decide. Every candidate is compared with the
//! live keys array. One that fails, at a recycled address or after a change in
//! place, is passed over; where none is left the caller scans. Only a record of
//! more keys than its array has is dropped.

use std::collections::HashMap;
use vstd::prelude::*;

use crate::gc::{RuntimeRootVisitor, VisitorView};
use crate::heap::{Cells, Heap};
use crate::keys::{dense_slots, fnv1a, key_bytes};
use crate::keys::{js_string_key_bytes, key_bytes_hash, keys_array_dense_slots};
use crate::method_names::bytes_equal;
use crate::rekey::{enumerates, lemma_rekeyed_map_values, rekey_table, rekeyed, table_keys};
use crate::value::JSValue;

verus! {

broadcast use vstd::std_specs::hash::group_hash_axioms;

// ---------------------------------------------------------------------------
// Ids
// ---------------------------------------------------------------------------
/// Shape ids have a range of their own, apart from the ids of user classes
/// below and of builtin classes above and just under it, so a stamp is never
/// taken for inheritance data.
pub const SHAPE_ID_BASE: u32 = 0x8000_0000;

/// Exclusive end of the shape ids.
pub const SHAPE_ID_END: u32 = 0xC000_0000;

/// Lifts a shape id above the addresses that a value can hold. Compiled code
/// compares against the same bit.
pub const PIC_ID_TOKEN_BIT: u64 = 0x4000_0000_0000_0000;

/// The counter that ids come from. A process has one, for the tables of all its
/// threads: the stamp of an object that is copied to another thread must not
/// be the id of another shape there. It only grows: an id is never used twice,
/// so a stale stamp can miss but not hit.
#[derive(Debug)]
pub struct ShapeIds {
    pub next: u32,
}

pub open spec fn shape_id(v: u32) -> bool {
    SHAPE_ID_BASE <= v < SHAPE_ID_END
}

pub fn is_shape_id(v: u32) -> (r: bool)
    ensures
        r == shape_id(v),
{
    SHAPE_ID_BASE <= v && v < SHAPE_ID_END
}

pub open spec fn shape_id_token(v: usize) -> bool {
    SHAPE_ID_BASE <= v < SHAPE_ID_END
}

/// Is a widened token a shape id? The whole word is tested, so an address
/// whose low half looks like an id is not taken for one.
pub fn is_shape_id_token(v: usize) -> (r: bool)
    ensures
        r == shape_id_token(v),
{
    v >= SHAPE_ID_BASE as usize && v < SHAPE_ID_END as usize
}

/// The id that the counter gives next; zero when the range is used up.
pub open spec fn next_id(next: u32) -> u32 {
    if next >= SHAPE_ID_END {
        0
    } else {
        next
    }
}

/// The counter after one more id. At the end of the range it stays.
pub open spec fn after_id(next: u32) -> u32 {
    if next >= SHAPE_ID_END {
        SHAPE_ID_END
    } else {
        (next + 1) as u32
    }
}

impl ShapeIds {
    pub open spec fn wf(self) -> bool {
        SHAPE_ID_BASE <= self.next <= SHAPE_ID_END
    }

    pub fn new() -> (r: ShapeIds)
        ensures
            r.wf(),
            r.next == SHAPE_ID_BASE,
    {
        ShapeIds { next: SHAPE_ID_BASE }
    }
}

/// Takes an id. Zero, when none is left, turns the acceleration off and
/// nothing else.
pub fn alloc_shape_id(ids: &mut ShapeIds) -> (r: u32)
    requires
        old(ids).wf(),
    ensures
        final(ids).wf(),
        r == next_id(old(ids).next),
        final(ids).next == after_id(old(ids).next),
{
    let id: u32 = ids.next;
    if id >= SHAPE_ID_END {
        ids.next = SHAPE_ID_END;
        return 0;
    }
    ids.next = id + 1;
    id
}

// ---------------------------------------------------------------------------
// Records
// ---------------------------------------------------------------------------
/// The record of one shape.
#[derive(Debug)]
pub struct Shape {
    /// Keys that `slots` covers. A longer live array is caught up with, for
    /// arrays only grow while shared; a shorter one was compacted and the
    /// record is dropped.
    pub indexed_len: u32,
    pub shape_id: u32,
    /// Content hash to candidate slots.
    pub slots: HashMap<u64, Vec<u32>>,
}

pub struct ShapeView {
    pub indexed_len: u32,
    pub shape_id: u32,
    pub slots: Map<u64, Seq<u32>>,
}

impl View for Shape {
    type V = ShapeView;

    open spec fn view(&self) -> ShapeView {
        ShapeView {
            indexed_len: self.indexed_len,
            shape_id: self.shape_id,
            slots: self.slots@.map_values(|v: Vec<u32>| v@),
        }
    }
}

/// The record of a shape that was just seen.
pub open spec fn newborn(shape_id: u32) -> ShapeView {
    ShapeView { indexed_len: 0, shape_id, slots: Map::empty() }
}

/// The slots filed under a hash.
pub open spec fn candidates(slots: Map<u64, Seq<u32>>, hash: u64) -> Seq<u32> {
    if slots.contains_key(hash) {
        slots[hash]
    } else {
        Seq::empty()
    }
}

/// `slots` with one more candidate.
pub open spec fn filed(slots: Map<u64, Seq<u32>>, hash: u64, slot: u32) -> Map<u64, Seq<u32>> {
    slots.insert(hash, candidates(slots, hash).push(slot))
}

/// Most keys that room is made for ahead of time. Callers may pass a length
/// that nothing vouches for.
pub const SLOTS_HINT_MAX: u32 = 4096;

impl Shape {
    /// A record that covers no keys yet, with room for `key_count` of them.
    fn newborn(shape_id: u32, key_count: u32) -> (r: Shape)
        ensures
            r@ == newborn(shape_id),
    {
        let hint: u32 = if key_count < SLOTS_HINT_MAX { key_count } else { SLOTS_HINT_MAX };
        let r = Shape { indexed_len: 0, shape_id, slots: HashMap::with_capacity(hint as usize) };
        assert(r@.slots =~= Map::<u64, Seq<u32>>::empty());
        r
    }

    fn file(&mut self, hash: u64, slot: u32)
        ensures
            final(self)@ == (ShapeView {
                slots: filed(old(self)@.slots, hash, slot),
                ..old(self)@
            }),
    {
        let mut list: Vec<u32> = match self.slots.remove(&hash) {
            Some(v) => v,
            None => Vec::new(),
        };
        assert(list@ == candidates(old(self)@.slots, hash));
        list.push(slot);
        self.slots.insert(hash, list);
        proof {
            assert(self@.slots =~= filed(old(self)@.slots, hash, slot));
        }
    }
}

/// The records by keys array.
#[derive(Debug)]
pub struct ShapeTable {
    pub entries: HashMap<usize, Shape>,
}

/// The records as they are spoken of.
pub type Shapes = Map<usize, ShapeView>;

impl View for ShapeTable {
    type V = Shapes;

    open spec fn view(&self) -> Shapes {
        self.entries@.map_values(|s: Shape| s@)
    }
}

impl ShapeTable {
    pub fn new() -> (r: ShapeTable)
        ensures
            r@ == Map::<usize, ShapeView>::empty(),
    {
        let r = ShapeTable { entries: HashMap::new() };
        assert(r@ =~= Map::<usize, ShapeView>::empty());
        r
    }

    fn take(&mut self, keys: usize) -> (r: Option<Shape>)
        ensures
            r is Some <==> old(self)@.contains_key(keys),
            r matches Some(s) ==> s@ == old(self)@[keys],
            final(self)@ == old(self)@.remove(keys),
    {
        let r = self.entries.remove(&keys);
        proof {
            assert(self@ =~= old(self)@.remove(keys));
        }
        r
    }

    fn put(&mut self, keys: usize, shape: Shape)
        ensures
            final(self)@ == old(self)@.insert(keys, shape@),
    {
        self.entries.insert(keys, shape);
        proof {
            assert(self@ =~= old(self)@.insert(keys, shape@));
        }
    }
}

/// The records after the one of `keys` was asked for, and made if need be.
pub open spec fn ensured(shapes: Shapes, next: u32, keys: usize) -> Shapes {
    if keys == 0 || shapes.contains_key(keys) {
        shapes
    } else {
        shapes.insert(keys, newborn(next_id(next)))
    }
}

/// The counter after the record of `keys` was asked for.
pub open spec fn ensured_next(shapes: Shapes, next: u32, keys: usize) -> u32 {
    if keys == 0 || shapes.contains_key(keys) {
        next
    } else {
        after_id(next)
    }
}

/// The id of the shape of `keys`, which gets a record if it has none. Zero for
/// no array, or when no id was left at the shape's birth.
pub fn shape_id_for_keys_ensure(
    table: &mut ShapeTable,
    ids: &mut ShapeIds,
    keys: usize,
    key_count: u32,
) -> (r: u32)
    requires
        old(ids).wf(),
    ensures
        final(ids).wf(),
        final(table)@ == ensured(old(table)@, old(ids).next, keys),
        final(ids).next == ensured_next(old(table)@, old(ids).next, keys),
        r == (if keys == 0 {
            0
        } else {
            final(table)@[keys].shape_id
        }),
{
    if keys == 0 {
        return 0;
    }
    match table.take(keys) {
        Some(shape) => {
            let id = shape.shape_id;
            table.put(keys, shape);
            proof {
                assert(table@ =~= old(table)@);
            }
            id
        },
        None => {
            proof {
                assert(table@ =~= old(table)@);
            }
            let id = alloc_shape_id(ids);
            table.put(keys, Shape::newborn(id, key_count));
            id
        },
    }
}

// ---------------------------------------------------------------------------
// Lookup
// ---------------------------------------------------------------------------
/// `slots` with the keys at positions `from..to` of a keys array filed.
pub open spec fn indexed(
    slots: Map<u64, Seq<u32>>,
    cells: Cells,
    dense: Seq<u64>,
    from: int,
    to: int,
) -> Map<u64, Seq<u32>>
    decreases to - from,
{
    if to <= from {
        slots
    } else {
        let before = indexed(slots, cells, dense, from, to - 1);
        match key_bytes(cells, dense[to - 1]) {
            Some(b) => filed(before, fnv1a(b), (to - 1) as u32),
            None => before,
        }
    }
}

/// The positions of a keys array that an index of `key_count` keys covers.
pub open spec fn coverable(dense: Seq<u64>, key_count: u32) -> int {
    if key_count <= dense.len() {
        key_count as int
    } else {
        dense.len() as int
    }
}

/// A record extended to cover `key_count` keys.
pub open spec fn caught_up(shape: ShapeView, cells: Cells, keys: usize, key_count: u32) -> ShapeView {
    let dense = dense_slots(cells, keys);
    if shape.indexed_len < key_count {
        ShapeView {
            indexed_len: key_count,
            shape_id: shape.shape_id,
            slots: indexed(
                shape.slots,
                cells,
                dense,
                shape.indexed_len as int,
                coverable(dense, key_count),
            ),
        }
    } else {
        shape
    }
}

/// Files the keys that a record does not cover yet.
pub fn index_range(shape: &mut Shape, heap: &Heap, keys: usize, key_count: u32)
    requires
        heap.wf(),
    ensures
        final(shape)@ == (ShapeView {
            indexed_len: key_count,
            shape_id: old(shape)@.shape_id,
            slots: indexed(
                old(shape)@.slots,
                heap@,
                dense_slots(heap@, keys),
                old(shape)@.indexed_len as int,
                coverable(dense_slots(heap@, keys), key_count),
            ),
        }),
{
    let ghost dense = dense_slots(heap@, keys);
    let ghost start = shape@;
    if let Some(slots) = keys_array_dense_slots(heap, keys) {
        let limit: u32 = if (key_count as usize) <= slots.len() {
            key_count
        } else {
            slots.len() as u32
        };
        let mut i: u32 = shape.indexed_len;
        while i < limit
            invariant
                slots@ == dense,
                limit == coverable(dense, key_count),
                dense == dense_slots(heap@, keys),
                start.indexed_len <= i,
                i <= limit || i == start.indexed_len,
                limit <= slots@.len(),
                shape@ == (ShapeView {
                    slots: indexed(start.slots, heap@, dense, start.indexed_len as int, i as int),
                    ..start
                }),
            decreases limit - i,
        {
            let mut scratch: Vec<u8> = Vec::new();
            let v = JSValue::from_bits(slots[i as usize]);
            if let Some(b) = js_string_key_bytes(heap, v, &mut scratch) {
                let h = key_bytes_hash(b);
                shape.file(h, i);
            }
            i += 1;
        }
    }
    shape.indexed_len = key_count;
}

/// Does the live key at a candidate slot spell `key`?
pub open spec fn slot_holds(
    cells: Cells,
    dense: Seq<u64>,
    key: Seq<u8>,
    key_count: u32,
    slot: u32,
) -> bool {
    slot < dense.len() && slot < key_count && key_bytes(cells, dense[slot as int]) == Some(key)
}

/// The first candidate, from `i` on, whose live key spells `key`.
pub open spec fn first_holding(
    cells: Cells,
    dense: Seq<u64>,
    list: Seq<u32>,
    key: Seq<u8>,
    key_count: u32,
    i: int,
) -> Option<u32>
    decreases list.len() - i,
{
    if i >= list.len() {
        None
    } else if slot_holds(cells, dense, key, key_count, list[i]) {
        Some(list[i])
    } else {
        first_holding(cells, dense, list, key, key_count, i + 1)
    }
}

/// The record that a lookup reads, if it reads one: the one of `keys`, or a
/// new one if `build` allows it, caught up with the array. A record that
/// covers more keys than the array has is stale and not read.
pub open spec fn consulted(
    shapes: Shapes,
    next: u32,
    cells: Cells,
    keys: usize,
    key_count: u32,
    build: bool,
) -> Option<ShapeView> {
    if shapes.contains_key(keys) {
        if shapes[keys].indexed_len > key_count {
            None
        } else {
            Some(caught_up(shapes[keys], cells, keys, key_count))
        }
    } else if build {
        Some(caught_up(newborn(next_id(next)), cells, keys, key_count))
    } else {
        None
    }
}

/// The records after a lookup.
pub open spec fn looked_up(
    shapes: Shapes,
    next: u32,
    cells: Cells,
    keys: usize,
    key_count: u32,
    build: bool,
) -> Shapes {
    match consulted(shapes, next, cells, keys, key_count, build) {
        Some(shape) => shapes.insert(keys, shape),
        None => shapes.remove(keys),
    }
}

/// The slot that a lookup finds.
pub open spec fn found_slot(
    shapes: Shapes,
    next: u32,
    cells: Cells,
    keys: usize,
    key: Seq<u8>,
    key_hash: u64,
    key_count: u32,
    build: bool,
) -> Option<u32> {
    match consulted(shapes, next, cells, keys, key_count, build) {
        Some(shape) => first_holding(
            cells,
            dense_slots(cells, keys),
            candidates(shape.slots, key_hash),
            key,
            key_count,
            0,
        ),
        None => None,
    }
}

/// Looks `key` up in the shape of `keys`. A slot that is returned holds `key`
/// in the live array; `None` sends the caller to its own scan. `build` lets a
/// first record be made; one that exists is read in any case.
pub fn shape_slot_lookup(
    table: &mut ShapeTable,
    ids: &mut ShapeIds,
    heap: &Heap,
    keys: usize,
    key: &[u8],
    key_hash: u64,
    key_count: u32,
    build: bool,
) -> (r: Option<u32>)
    requires
        old(ids).wf(),
        heap.wf(),
    ensures
        final(ids).wf(),
        final(ids).next == (if old(table)@.contains_key(keys) || !build {
            old(ids).next
        } else {
            after_id(old(ids).next)
        }),
        final(table)@ == looked_up(old(table)@, old(ids).next, heap@, keys, key_count, build),
        r == found_slot(
            old(table)@,
            old(ids).next,
            heap@,
            keys,
            key@,
            key_hash,
            key_count,
            build,
        ),
        r matches Some(slot) ==> slot_holds(
            heap@,
            dense_slots(heap@, keys),
            key@,
            key_count,
            slot,
        ),
{
    let mut shape = match table.take(keys) {
        Some(s) => {
            if s.indexed_len > key_count {
                return None;
            }
            s
        },
        None => {
            if !build {
                return None;
            }
            Shape::newborn(alloc_shape_id(ids), key_count)
        },
    };
    if shape.indexed_len < key_count {
        index_range(&mut shape, heap, keys, key_count);
    }
    let ghost list = candidates(shape@.slots, key_hash);
    let ghost dense = dense_slots(heap@, keys);
    let mut hit: Option<u32> = None;
    if let Some(cands) = shape.slots.get(&key_hash) {
        assert(cands@ == list);
        if let Some(slots) = keys_array_dense_slots(heap, keys) {
            let mut i: usize = 0;
            while i < cands.len() && hit.is_none()
                invariant
                    cands@ == list,
                    slots@ == dense,
                    i <= list.len(),
                    match hit {
                        None => first_holding(heap@, dense, list, key@, key_count, i as int)
                            == first_holding(heap@, dense, list, key@, key_count, 0),
                        Some(s) => first_holding(heap@, dense, list, key@, key_count, 0) == Some(
                            s,
                        ) && slot_holds(heap@, dense, key@, key_count, s),
                    },
                decreases list.len() - i,
            {
                let slot: u32 = cands[i];
                if (slot as usize) < slots.len() && slot < key_count {
                    let mut scratch: Vec<u8> = Vec::new();
                    let v = JSValue::from_bits(slots[slot as usize]);
                    if let Some(stored) = js_string_key_bytes(heap, v, &mut scratch) {
                        if bytes_equal(stored, key) {
                            hit = Some(slot);
                        }
                    }
                }
                i += 1;
            }
        } else {
            proof {
                lemma_nothing_held(heap@, dense, list, key@, key_count, 0);
            }
        }
    }
    table.put(keys, shape);
    proof {
        assert(table@ =~= looked_up(
            old(table)@,
            old(ids).next,
            heap@,
            keys,
            key_count,
            build,
        ));
    }
    hit
}

proof fn lemma_nothing_held(
    cells: Cells,
    dense: Seq<u64>,
    list: Seq<u32>,
    key: Seq<u8>,
    key_count: u32,
    i: int,
)
    requires
        dense.len() == 0,
    ensures
        first_holding(cells, dense, list, key, key_count, i) is None,
    decreases list.len() - i,
{
    if i < list.len() {
        lemma_nothing_held(cells, dense, list, key, key_count, i + 1);
    }
}

// ---------------------------------------------------------------------------
// Upkeep
// ---------------------------------------------------------------------------
/// The records after a key was appended to `keys`, which has `new_count` keys
/// now. Only a record that covers exactly the keys before is extended.
pub open spec fn append_noted(
    shapes: Shapes,
    keys: usize,
    new_count: u32,
    key_hash: u64,
    slot: u32,
) -> Shapes {
    if shapes.contains_key(keys) && shapes[keys].indexed_len + 1 == new_count {
        shapes.insert(
            keys,
            ShapeView {
                indexed_len: new_count,
                shape_id: shapes[keys].shape_id,
                slots: filed(shapes[keys].slots, key_hash, slot),
            },
        )
    } else {
        shapes
    }
}

/// Records an appended key. `keys` is the array after the append; without a
/// record for it nothing happens.
pub fn shape_note_append(
    table: &mut ShapeTable,
    keys: usize,
    new_count: u32,
    key_hash: u64,
    slot: u32,
)
    ensures
        final(table)@ == append_noted(old(table)@, keys, new_count, key_hash, slot),
{
    if let Some(mut shape) = table.take(keys) {
        if new_count > 0 && shape.indexed_len == new_count - 1 {
            shape.indexed_len = new_count;
            shape.file(key_hash, slot);
        }
        table.put(keys, shape);
    }
    proof {
        assert(table@ =~= append_noted(old(table)@, keys, new_count, key_hash, slot));
    }
}

/// The records after a scan found a key.
pub open spec fn hit_noted(shapes: Shapes, keys: usize, key_hash: u64, slot: u32) -> Shapes {
    if shapes.contains_key(keys) {
        shapes.insert(
            keys,
            ShapeView { slots: filed(shapes[keys].slots, key_hash, slot), ..shapes[keys] },
        )
    } else {
        shapes
    }
}

/// Files what a scan found. Without a record nothing happens; the next lookup
/// makes one.
pub fn shape_note_hit(table: &mut ShapeTable, keys: usize, key_hash: u64, slot: u32)
    ensures
        final(table)@ == hit_noted(old(table)@, keys, key_hash, slot),
{
    if let Some(mut shape) = table.take(keys) {
        shape.file(key_hash, slot);
        table.put(keys, shape);
    }
    proof {
        assert(table@ =~= hit_noted(old(table)@, keys, key_hash, slot));
    }
}

/// The records after an owned keys array was replaced by a larger one.
pub open spec fn keys_grown(shapes: Shapes, old_keys: usize, new_keys: usize) -> Shapes {
    if old_keys == 0 || new_keys == 0 || old_keys == new_keys || !shapes.contains_key(old_keys) {
        shapes
    } else {
        shapes.remove(old_keys).insert(new_keys, shapes[old_keys])
    }
}

/// Lets the record of an owned keys array follow it to a larger allocation:
/// the shape stays the same. Not for a shared array, whose clone begins a
/// shape of its own.
pub fn shape_keys_grown(table: &mut ShapeTable, old_keys: usize, new_keys: usize)
    ensures
        final(table)@ == keys_grown(old(table)@, old_keys, new_keys),
{
    if old_keys == 0 || new_keys == 0 || old_keys == new_keys {
        return;
    }
    if let Some(shape) = table.take(old_keys) {
        table.put(new_keys, shape);
    }
    proof {
        assert(table@ =~= keys_grown(old(table)@, old_keys, new_keys));
    }
}

/// Drops the record of a keys array that was compacted in place.
pub fn shape_drop(table: &mut ShapeTable, keys: usize)
    ensures
        final(table)@ == old(table)@.remove(keys),
{
    let _ = table.take(keys);
}

/// Drops the records whose keys array is dead; only those that have a record
/// are asked about. This saves memory; nothing depends on it.
pub fn prune_dead_shape_keys<F: Fn(usize) -> bool>(table: &mut ShapeTable, is_dead_owner: F)
    requires
        forall|keys: usize| #[trigger]
            old(table)@.contains_key(keys) ==> call_requires(is_dead_owner, (keys,)),
    ensures
        forall|keys: usize| #[trigger]
            final(table)@.contains_key(keys) ==> old(table)@.contains_key(keys)
                && final(table)@[keys] == old(table)@[keys] && call_ensures(
                is_dead_owner,
                (keys,),
                false,
            ),
        forall|keys: usize| #[trigger]
            old(table)@.contains_key(keys) && !final(table)@.contains_key(keys) ==> call_ensures(
                is_dead_owner,
                (keys,),
                true,
            ),
{
    let order = table_keys(&table.entries);
    let ghost before = table@;
    proof {
        assert(table.entries@.dom() =~= before.dom());
    }
    let mut i: usize = 0;
    while i < order.len()
        invariant
            i <= order@.len(),
            forall|keys: usize| #[trigger]
                before.contains_key(keys) ==> call_requires(is_dead_owner, (keys,)),
            enumerates(order@, before.dom()),
            forall|keys: usize| #[trigger]
                table@.contains_key(keys) ==> before.contains_key(keys) && table@[keys]
                    == before[keys],
            forall|j: int|
                0 <= j < i ==> call_ensures(
                    is_dead_owner,
                    (#[trigger] order@[j],),
                    !table@.contains_key(order@[j]),
                ),
            forall|j: int| i <= j < order@.len() ==> table@.contains_key(#[trigger] order@[j]),
        decreases order@.len() - i,
    {
        let keys: usize = order[i];
        assert(order@.to_set().contains(keys));
        if is_dead_owner(keys) {
            let _ = table.take(keys);
        }
        i += 1;
    }
    proof {
        assert forall|keys: usize| #[trigger] before.contains_key(keys) implies call_ensures(
            is_dead_owner,
            (keys,),
            !table@.contains_key(keys),
        ) by {
            assert(order@.to_set().contains(keys));
            let j = choose|j: int| 0 <= j < order@.len() && order@[j] == keys;
            assert(order@[j] == keys);
        }
    }
}

/// Lets the records follow keys arrays that the collector moved. The records
/// hold no references, so in any other phase nothing happens.
pub fn scan_shape_table_rekey_mut(table: &mut ShapeTable, visitor: &mut RuntimeRootVisitor)
    ensures
        final(visitor)@ == old(visitor)@,
        !old(visitor)@.rewriting ==> final(table)@ == old(table)@,
        old(visitor)@.rewriting ==> exists|order: Seq<usize>|
            {
                &&& #[trigger] enumerates(order, old(table)@.dom())
                &&& final(table)@ == rekeyed(old(table)@, order, old(visitor)@)
            },
{
    if !visitor.is_metadata_rewrite_phase() {
        return;
    }
    let order = table_keys(&table.entries);
    proof {
        assert(table.entries@.dom() =~= table@.dom());
        lemma_rekeyed_map_values(table.entries@, order@, visitor@, |s: Shape| s@);
    }
    let _ = rekey_table(&mut table.entries, &order, visitor);
}

/// Is there a record for `keys_id`?
pub fn test_shape_entry_exists(table: &ShapeTable, keys_id: usize) -> (r: bool)
    ensures
        r == table@.contains_key(keys_id),
{
    table.entries.contains_key(&keys_id)
}

/// Gives `keys_id` a fresh record, whether it has one or not.
pub fn test_seed_shape_entry(table: &mut ShapeTable, ids: &mut ShapeIds, keys_id: usize)
    requires
        old(ids).wf(),
    ensures
        final(ids).wf(),
        final(ids).next == after_id(old(ids).next),
        final(table)@ == old(table)@.insert(keys_id, newborn(next_id(old(ids).next))),
{
    let id = alloc_shape_id(ids);
    table.put(keys_id, Shape::newborn(id, 0));
}

/// The id in the record of `keys_id`, if there is one.
pub fn test_shape_id_for_keys(table: &ShapeTable, keys_id: usize) -> (r: Option<u32>)
    ensures
        r == (if table@.contains_key(keys_id) {
            Some(table@[keys_id].shape_id)
        } else {
            None
        }),
{
    match table.entries.get(&keys_id) {
        Some(shape) => Some(shape.shape_id),
        None => None,
    }
}

// ---------------------------------------------------------------------------
// Laws
// ---------------------------------------------------------------------------
/// Ids come from their range, and no two records share one.
pub open spec fn ids_distinct(shapes: Shapes) -> bool {
    &&& forall|k: usize| #[trigger]
        shapes.contains_key(k) ==> shapes[k].shape_id == 0 || shape_id(shapes[k].shape_id)
    &&& forall|j: usize, k: usize| #[trigger]
        shapes.contains_key(j) && #[trigger] shapes.contains_key(k) && j != k
            && shapes[j].shape_id != 0 ==> shapes[j].shape_id != shapes[k].shape_id
}

/// The ids were drawn from a counter that is at `next` now: they are below it.
/// A record without an id was born after the range was used up.
pub open spec fn ids_drawn(shapes: Shapes, next: u32) -> bool {
    &&& SHAPE_ID_BASE <= next <= SHAPE_ID_END
    &&& forall|k: usize| #[trigger]
        shapes.contains_key(k) ==> if shapes[k].shape_id == 0 {
            next == SHAPE_ID_END
        } else {
            SHAPE_ID_BASE <= shapes[k].shape_id < next
        }
}

pub open spec fn ids_sound(shapes: Shapes, next: u32) -> bool {
    ids_distinct(shapes) && ids_drawn(shapes, next)
}

/// Has some record this id?
pub open spec fn has_id(shapes: Shapes, id: u32) -> bool {
    id != 0 && exists|k: usize| #[trigger] shapes.contains_key(k) && shapes[k].shape_id == id
}

/// `after` has the ids of `before`, and beyond them only ids from `next` on.
pub open spec fn only_new_ids(before: Shapes, after: Shapes, next: u32) -> bool {
    forall|id: u32| #[trigger] has_id(after, id) ==> has_id(before, id) || next <= id
}

/// A table went from `before` to `after` while the counter went from `next` to
/// `later`: what is new in it was drawn meanwhile.
pub open spec fn drew(before: Shapes, next: u32, after: Shapes, later: u32) -> bool {
    &&& next <= later
    &&& ids_drawn(after, later)
    &&& only_new_ids(before, after, next)
}

/// No id is in both tables.
pub open spec fn ids_apart(a: Shapes, b: Shapes) -> bool {
    forall|id: u32| #[trigger] has_id(a, id) ==> !has_id(b, id)
}

/// Ids stay sound whatever is done to the records: asking for one, looking a
/// key up, noting an append or a hit, growing and dropping an array, replacing
/// a record by a fresh one.
pub proof fn ids_stay_sound(
    shapes: Shapes,
    next: u32,
    cells: Cells,
    keys: usize,
    other: usize,
    key_count: u32,
    key_hash: u64,
    slot: u32,
    build: bool,
)
    requires
        ids_sound(shapes, next),
    ensures
        ids_sound(ensured(shapes, next, keys), ensured_next(shapes, next, keys)),
        ids_sound(
            looked_up(shapes, next, cells, keys, key_count, build),
            if shapes.contains_key(keys) || !build {
                next
            } else {
                after_id(next)
            },
        ),
        ids_sound(append_noted(shapes, keys, key_count, key_hash, slot), next),
        ids_sound(hit_noted(shapes, keys, key_hash, slot), next),
        ids_sound(keys_grown(shapes, keys, other), next),
        ids_sound(shapes.remove(keys), next),
        ids_sound(shapes.insert(keys, newborn(next_id(next))), after_id(next)),
{
}

/// Whatever is done to the records, ids that were not there before are drawn
/// from the counter.
pub proof fn new_ids_are_drawn(
    shapes: Shapes,
    next: u32,
    cells: Cells,
    keys: usize,
    other: usize,
    key_count: u32,
    key_hash: u64,
    slot: u32,
    build: bool,
)
    ensures
        only_new_ids(shapes, ensured(shapes, next, keys), next),
        only_new_ids(shapes, looked_up(shapes, next, cells, keys, key_count, build), next),
        only_new_ids(shapes, append_noted(shapes, keys, key_count, key_hash, slot), next),
        only_new_ids(shapes, hit_noted(shapes, keys, key_hash, slot), next),
        only_new_ids(shapes, keys_grown(shapes, keys, other), next),
        only_new_ids(shapes, shapes.remove(keys), next),
        only_new_ids(shapes, shapes.insert(keys, newborn(next_id(next))), next),
{
    lemma_same_ids(shapes, ensured(shapes, next, keys), next, keys, keys);
    lemma_same_ids(
        shapes,
        looked_up(shapes, next, cells, keys, key_count, build),
        next,
        keys,
        keys,
    );
    lemma_same_ids(
        shapes,
        append_noted(shapes, keys, key_count, key_hash, slot),
        next,
        keys,
        keys,
    );
    lemma_same_ids(shapes, hit_noted(shapes, keys, key_hash, slot), next, keys, keys);
    lemma_same_ids(shapes, keys_grown(shapes, keys, other), next, other, keys);
    lemma_same_ids(shapes, shapes.remove(keys), next, keys, keys);
    lemma_same_ids(
        shapes,
        shapes.insert(keys, newborn(next_id(next))),
        next,
        keys,
        keys,
    );
}

/// A table of which at most the record at `at` changed, to the one that was at
/// `from` or to one with an id that is drawn next, has no other ids.
proof fn lemma_same_ids(before: Shapes, after: Shapes, next: u32, at: usize, from: usize)
    requires
        forall|k: usize| #[trigger]
            after.contains_key(k) && k != at ==> before.contains_key(k) && after[k].shape_id
                == before[k].shape_id,
        after.contains_key(at) ==> {
            ||| before.contains_key(at) && after[at].shape_id == before[at].shape_id
            ||| before.contains_key(from) && after[at].shape_id == before[from].shape_id
            ||| after[at].shape_id == next_id(next)
        },
    ensures
        only_new_ids(before, after, next),
{
    assert forall|id: u32| #[trigger] has_id(after, id) implies has_id(before, id) || next
        <= id by {
        let k = choose|k: usize| #[trigger] after.contains_key(k) && after[k].shape_id == id;
        assert(k != at ==> before.contains_key(k));
    }
}

/// The first ids that two tables draw from one counter differ, and so do the
/// ids of any two of their shapes; also where they use the same addresses.
pub proof fn two_tables_draw_different_ids(next: u32, a: usize, b: usize)
    requires
        SHAPE_ID_BASE <= next <= SHAPE_ID_END,
        a != 0,
        b != 0,
    ensures
        ({
            let none = Map::<usize, ShapeView>::empty();
            let first = ensured(none, next, a);
            let other = ensured(none, ensured_next(none, next, a), b);
            &&& ids_apart(first, other)
            &&& first[a].shape_id != 0 ==> first[a].shape_id != other[b].shape_id
        }),
{
    let none = Map::<usize, ShapeView>::empty();
    let first = ensured(none, next, a);
    let middle = ensured_next(none, next, a);
    let other = ensured(none, middle, b);
    assert forall|id: u32| #[trigger] has_id(first, id) implies !has_id(other, id) by {
        assert(first.contains_key(a) && other.contains_key(b));
    }
}

/// Tables that draw from one counter never share an id: what one of them draws
/// differs from all that any other has, and the other may go on drawing.
pub proof fn tables_of_one_counter_stay_apart(
    a: Shapes,
    b: Shapes,
    next: u32,
    after: Shapes,
    later: u32,
)
    requires
        ids_apart(a, b),
        ids_drawn(b, next),
        drew(a, next, after, later),
    ensures
        ids_apart(after, b),
        ids_apart(b, after),
        ids_drawn(b, later),
{
    assert forall|id: u32| #[trigger] has_id(after, id) implies !has_id(b, id) by {
        if has_id(b, id) {
            let k = choose|k: usize| #[trigger] b.contains_key(k) && b[k].shape_id == id;
            assert(b.contains_key(k));
        }
    }
}

/// Moving the keys arrays keeps the ids sound too, in whatever order the
/// records are moved.
pub proof fn ids_stay_sound_when_moved(
    shapes: Shapes,
    next: u32,
    order: Seq<usize>,
    visitor: VisitorView,
)
    requires
        ids_sound(shapes, next),
    ensures
        ids_sound(rekeyed(shapes, order, visitor), next),
        only_new_ids(shapes, rekeyed(shapes, order, visitor), next),
    decreases order.len(),
{
    if order.len() > 0 {
        let before = rekeyed(shapes, order.drop_last(), visitor);
        let from = order.last();
        ids_stay_sound_when_moved(shapes, next, order.drop_last(), visitor);
        lemma_same_ids(
            before,
            rekeyed(shapes, order, visitor),
            next,
            visitor.moved(from),
            from,
        );
    }
}

/// A shape keeps its id: asking again gives the same one, other shapes have
/// other ids and keep their records, and no id is zero unless the range is used
/// up. Asking for no array makes no record.
pub proof fn shape_ids_are_stable_and_distinct(
    shapes: Shapes,
    next: u32,
    a: usize,
    b: usize,
)
    requires
        ids_sound(shapes, next),
        a != 0,
        b != 0,
        a != b,
    ensures
        ({
            let once = ensured(shapes, next, a);
            let n1 = ensured_next(shapes, next, a);
            let twice = ensured(once, n1, b);
            let n2 = ensured_next(once, n1, b);
            let thrice = ensured(twice, n2, a);
            &&& thrice == twice
            &&& ensured_next(twice, n2, a) == n2
            &&& thrice[a].shape_id == once[a].shape_id
            &&& once[a].shape_id != 0 ==> shape_id(once[a].shape_id) && once[a].shape_id
                != twice[b].shape_id
            &&& once[a].shape_id == 0 ==> next == SHAPE_ID_END
            &&& !shapes.contains_key(a) && next < SHAPE_ID_END ==> once[a].shape_id == next
            &&& once.remove(a) == shapes.remove(a)
            &&& ensured(shapes, next, 0) == shapes
            &&& ensured_next(shapes, next, 0) == next
        }),
{
    assert(ensured(shapes, next, a).remove(a) =~= shapes.remove(a));
}

/// An id is never given twice: the counter passes every id it gave and never
/// comes back.
pub proof fn shape_ids_are_never_reused(next: u32)
    requires
        SHAPE_ID_BASE <= next <= SHAPE_ID_END,
    ensures
        next <= after_id(next) <= SHAPE_ID_END,
        next_id(next) != 0 ==> shape_id(next_id(next)) && next_id(next) < after_id(next),
        next_id(next) == 0 ==> next_id(after_id(next)) == 0,
{
}

/// A grown or moved array takes its id along.
pub proof fn grown_keys_keep_their_id(shapes: Shapes, old_keys: usize, new_keys: usize)
    requires
        shapes.contains_key(old_keys),
        old_keys != 0,
        new_keys != 0,
    ensures
        keys_grown(shapes, old_keys, new_keys).contains_key(new_keys),
        keys_grown(shapes, old_keys, new_keys)[new_keys] == shapes[old_keys],
{
}

/// Shape ids, widened or lifted into the token space, are no heap addresses:
/// an id token never equals an address.
pub proof fn id_tokens_are_no_addresses(id: u32, addr: usize)
    requires
        shape_id(id),
        addr < crate::value::ADDRESS_END,
    ensures
        (id as u64 | PIC_ID_TOKEN_BIT) != addr as u64,
        shape_id_token(id as usize),
{
    let w = id as u64;
    let a = addr as u64;
    assert((w | 0x4000_0000_0000_0000) != a) by (bit_vector)
        requires
            a < 0x0001_0000_0000_0000u64,
    ;
}

/// Are all keys at the first `len` positions filed under their hash?
pub open spec fn covers(
    slots: Map<u64, Seq<u32>>,
    cells: Cells,
    dense: Seq<u64>,
    len: int,
) -> bool {
    forall|i: int|
        0 <= i < len && i < dense.len() && (#[trigger] key_bytes(cells, dense[i])) is Some
            ==> candidates(slots, fnv1a(key_bytes(cells, dense[i])->0)).contains(i as u32)
}

proof fn lemma_filed_keeps(slots: Map<u64, Seq<u32>>, hash: u64, slot: u32, h: u64, s: u32)
    requires
        candidates(slots, h).contains(s) || (h == hash && s == slot),
    ensures
        candidates(filed(slots, hash, slot), h).contains(s),
{
    let before = candidates(slots, h);
    let after = candidates(filed(slots, hash, slot), h);
    if before.contains(s) {
        let i = choose|i: int| 0 <= i < before.len() && before[i] == s;
        assert(after[i] == s);
    } else {
        assert(after[after.len() - 1] == s);
    }
}

proof fn lemma_indexed_covers(
    slots: Map<u64, Seq<u32>>,
    cells: Cells,
    dense: Seq<u64>,
    from: int,
    to: int,
)
    requires
        covers(slots, cells, dense, from),
        0 <= from,
        to <= dense.len() <= u32::MAX,
    ensures
        covers(indexed(slots, cells, dense, from, to), cells, dense, from),
        covers(indexed(slots, cells, dense, from, to), cells, dense, to),
    decreases to - from,
{
    if from < to {
        lemma_indexed_covers(slots, cells, dense, from, to - 1);
        let before = indexed(slots, cells, dense, from, to - 1);
        let after = indexed(slots, cells, dense, from, to);
        assert forall|i: int|
            0 <= i < to && i < dense.len() && (#[trigger] key_bytes(
                cells,
                dense[i],
            )) is Some implies candidates(
            after,
            fnv1a(key_bytes(cells, dense[i])->0),
        ).contains(i as u32) by {
            if key_bytes(cells, dense[to - 1]) is Some {
                lemma_filed_keeps(
                    before,
                    fnv1a(key_bytes(cells, dense[to - 1])->0),
                    (to - 1) as u32,
                    fnv1a(key_bytes(cells, dense[i])->0),
                    i as u32,
                );
            }
        }
    }
}

proof fn lemma_first_holding(
    cells: Cells,
    dense: Seq<u64>,
    list: Seq<u32>,
    key: Seq<u8>,
    key_count: u32,
    i: int,
)
    requires
        0 <= i <= list.len(),
    ensures
        ({
            let r = first_holding(cells, dense, list, key, key_count, i);
            &&& r is None ==> forall|j: int|
                i <= j < list.len() ==> !slot_holds(cells, dense, key, key_count, #[trigger] list[j])
            &&& r matches Some(s) ==> slot_holds(cells, dense, key, key_count, s)
        }),
    decreases list.len() - i,
{
    if i < list.len() {
        lemma_first_holding(cells, dense, list, key, key_count, i + 1);
    }
}

/// A lookup finds every key that is there. Where the record covers the keys it
/// claims to cover, and the hash is that of the key, a lookup that reads a
/// record gives a slot exactly when some position below `key_count` holds the
/// key, and the slot it gives holds it.
pub proof fn lookup_finds_every_key(
    shapes: Shapes,
    next: u32,
    cells: Cells,
    keys: usize,
    key: Seq<u8>,
    key_count: u32,
    build: bool,
)
    requires
        shapes.contains_key(keys) ==> covers(
            shapes[keys].slots,
            cells,
            dense_slots(cells, keys),
            shapes[keys].indexed_len as int,
        ),
        consulted(shapes, next, cells, keys, key_count, build) is Some,
        dense_slots(cells, keys).len() <= u32::MAX,
    ensures
        ({
            let r = found_slot(shapes, next, cells, keys, key, fnv1a(key), key_count, build);
            let dense = dense_slots(cells, keys);
            &&& r is Some <==> exists|s: u32| #[trigger] slot_holds(cells, dense, key, key_count, s)
            &&& r matches Some(s) ==> slot_holds(cells, dense, key, key_count, s)
            &&& covers(
                looked_up(shapes, next, cells, keys, key_count, build)[keys].slots,
                cells,
                dense,
                key_count as int,
            )
        }),
{
    let dense = dense_slots(cells, keys);
    let from = if shapes.contains_key(keys) {
        shapes[keys]
    } else {
        newborn(next_id(next))
    };
    let shape = consulted(shapes, next, cells, keys, key_count, build)->0;
    assert(covers(from.slots, cells, dense, from.indexed_len as int));
    if from.indexed_len < key_count {
        lemma_indexed_covers(
            from.slots,
            cells,
            dense,
            from.indexed_len as int,
            coverable(dense, key_count),
        );
        assert(covers(shape.slots, cells, dense, key_count as int));
    }
    let list = candidates(shape.slots, fnv1a(key));
    lemma_first_holding(cells, dense, list, key, key_count, 0);
    if exists|s: u32| #[trigger] slot_holds(cells, dense, key, key_count, s) {
        let s = choose|s: u32| #[trigger] slot_holds(cells, dense, key, key_count, s);
        assert(key_bytes(cells, dense[s as int]) is Some);
        assert(list.contains(s));
        let j = choose|j: int| 0 <= j < list.len() && list[j] == s;
        assert(slot_holds(cells, dense, key, key_count, list[j]));
    }
}

/// Are the candidates of every hash in ascending order and below `len`?
pub open spec fn filed_in_order(slots: Map<u64, Seq<u32>>, len: int) -> bool {
    &&& forall|h: u64, i: int|
        0 <= i < candidates(slots, h).len() ==> #[trigger] candidates(slots, h)[i] < len
    &&& forall|h: u64, i: int, j: int|
        0 <= i < j < candidates(slots, h).len() ==> #[trigger] candidates(slots, h)[i]
            < #[trigger] candidates(slots, h)[j]
}

/// Noting an append keeps the candidates in order.
pub proof fn noted_append_keeps_order(slots: Map<u64, Seq<u32>>, hash: u64, slot: u32)
    requires
        filed_in_order(slots, slot as int),
    ensures
        filed_in_order(filed(slots, hash, slot), slot + 1),
{
    let after = filed(slots, hash, slot);
    assert forall|h: u64| #[trigger] candidates(after, h) == (if h == hash {
        candidates(slots, h).push(slot)
    } else {
        candidates(slots, h)
    }) by {}
}

proof fn lemma_indexed_in_order(
    slots: Map<u64, Seq<u32>>,
    cells: Cells,
    dense: Seq<u64>,
    from: int,
    to: int,
)
    requires
        filed_in_order(slots, from),
        0 <= from,
        to <= u32::MAX,
    ensures
        filed_in_order(indexed(slots, cells, dense, from, to), if from < to {
            to
        } else {
            from
        }),
    decreases to - from,
{
    if from < to {
        lemma_indexed_in_order(slots, cells, dense, from, to - 1);
        if let Some(b) = key_bytes(cells, dense[to - 1]) {
            noted_append_keeps_order(
                indexed(slots, cells, dense, from, to - 1),
                fnv1a(b),
                (to - 1) as u32,
            );
        }
    }
}

proof fn lemma_first_is_least(
    cells: Cells,
    dense: Seq<u64>,
    list: Seq<u32>,
    key: Seq<u8>,
    key_count: u32,
    i: int,
)
    requires
        0 <= i <= list.len(),
        forall|a: int, b: int| 0 <= a < b < list.len() ==> #[trigger] list[a] < #[trigger] list[b],
    ensures
        first_holding(cells, dense, list, key, key_count, i) matches Some(s) ==> forall|j: int|
            i <= j < list.len() && slot_holds(cells, dense, key, key_count, #[trigger] list[j])
                ==> s <= list[j],
    decreases list.len() - i,
{
    if i < list.len() {
        lemma_first_is_least(cells, dense, list, key, key_count, i + 1);
    }
}

/// A lookup gives the first slot that holds the key. So it is for a record that
/// the lookup makes, and for every record whose candidates are in order, which
/// the lookup keeps.
pub proof fn lookup_gives_the_least_slot(
    shapes: Shapes,
    next: u32,
    cells: Cells,
    keys: usize,
    key: Seq<u8>,
    key_count: u32,
    build: bool,
)
    requires
        shapes.contains_key(keys) ==> {
            &&& covers(
                shapes[keys].slots,
                cells,
                dense_slots(cells, keys),
                shapes[keys].indexed_len as int,
            )
            &&& filed_in_order(shapes[keys].slots, shapes[keys].indexed_len as int)
        },
        consulted(shapes, next, cells, keys, key_count, build) is Some,
        dense_slots(cells, keys).len() <= u32::MAX,
    ensures
        ({
            let r = found_slot(shapes, next, cells, keys, key, fnv1a(key), key_count, build);
            let dense = dense_slots(cells, keys);
            &&& r matches Some(s) ==> slot_holds(cells, dense, key, key_count, s) && forall|t: u32|
                #[trigger] slot_holds(cells, dense, key, key_count, t) ==> s <= t
            &&& filed_in_order(
                looked_up(shapes, next, cells, keys, key_count, build)[keys].slots,
                key_count as int,
            )
        }),
{
    let dense = dense_slots(cells, keys);
    let from = if shapes.contains_key(keys) {
        shapes[keys]
    } else {
        newborn(next_id(next))
    };
    let shape = consulted(shapes, next, cells, keys, key_count, build)->0;
    lookup_finds_every_key(shapes, next, cells, keys, key, key_count, build);
    lemma_indexed_in_order(
        from.slots,
        cells,
        dense,
        from.indexed_len as int,
        coverable(dense, key_count),
    );
    let list = candidates(shape.slots, fnv1a(key));
    assert(filed_in_order(shape.slots, key_count as int));
    assert forall|a: int, b: int| 0 <= a < b < list.len() implies #[trigger] list[a]
        < #[trigger] list[b] by {
        assert(candidates(shape.slots, fnv1a(key))[a] < candidates(shape.slots, fnv1a(key))[b]);
    }
    lemma_first_is_least(cells, dense, list, key, key_count, 0);
    assert forall|t: u32| #[trigger]
        slot_holds(cells, dense, key, key_count, t) implies list.contains(t) by {
        assert(key_bytes(cells, dense[t as int]) is Some);
        assert(covers(shape.slots, cells, dense, key_count as int));
    }
}

/// Noting an append keeps a record complete: if it covered the keys before,
/// it covers them and the new one after.
pub proof fn noted_append_keeps_cover(
    slots: Map<u64, Seq<u32>>,
    cells: Cells,
    dense: Seq<u64>,
    added: u64,
)
    requires
        covers(slots, cells, dense, dense.len() as int),
        key_bytes(cells, added) is Some,
        dense.len() < u32::MAX,
    ensures
        covers(
            filed(slots, fnv1a(key_bytes(cells, added)->0), dense.len() as u32),
            cells,
            dense.push(added),
            (dense.len() + 1) as int,
        ),
{
    let hash = fnv1a(key_bytes(cells, added)->0);
    let after = dense.push(added);
    assert forall|i: int|
        0 <= i < dense.len() + 1 && i < after.len() && (#[trigger] key_bytes(
            cells,
            after[i],
        )) is Some implies candidates(
        filed(slots, hash, dense.len() as u32),
        fnv1a(key_bytes(cells, after[i])->0),
    ).contains(i as u32) by {
        if i < dense.len() {
            assert(after[i] == dense[i]);
        }
        lemma_filed_keeps(
            slots,
            hash,
            dense.len() as u32,
            fnv1a(key_bytes(cells, after[i])->0),
            i as u32,
        );
    }
}

/// Ids have the third quarter of the 32-bit numbers to themselves, and a wider
/// word is an id only as a whole. The counter gives its own value and goes on by
/// one, until the range is used up.
pub proof fn ids_have_a_range_of_their_own(v: u32, w: usize, next: u32)
    requires
        0x8000_0000 <= next <= 0xC000_0000,
    ensures
        shape_id(v) <==> 0x8000_0000 <= v <= 0xBFFF_FFFF,
        shape_id_token(w) <==> 0x8000_0000 <= w <= 0xBFFF_FFFF,
        next < 0xC000_0000 ==> next_id(next) == next && after_id(next) == next + 1,
        next == 0xC000_0000 ==> next_id(next) == 0 && after_id(next) == next,
{
}

/// A lookup touches the record of its array alone. It completes the record up to
/// the keys it was told of and keeps its id; it makes one only where it may, and
/// drops one that has more keys than the array.
pub proof fn lookups_touch_one_record(
    shapes: Shapes,
    next: u32,
    cells: Cells,
    keys: usize,
    key_count: u32,
    build: bool,
    other: usize,
)
    requires
        other != keys,
    ensures
        ({
            let after = looked_up(shapes, next, cells, keys, key_count, build);
            let had = shapes.contains_key(keys);
            let stale = had && shapes[keys].indexed_len > key_count;
            &&& after.contains_key(other) == shapes.contains_key(other)
            &&& after[other] == shapes[other]
            &&& after.contains_key(keys) <==> (had && !stale) || (!had && build)
            &&& after.contains_key(keys) ==> after[keys].indexed_len == key_count
            &&& had && !stale ==> after[keys].shape_id == shapes[keys].shape_id
            &&& !had && build ==> after[keys].shape_id == next_id(next)
        }),
{
}

/// What is noted is filed under its hash, after what is filed there already. An
/// append is noted only in a record that covers all keys before it, and then the
/// record covers it too; a hit covers nothing more. Ids and other records stay.
pub proof fn noted_keys_are_filed(
    shapes: Shapes,
    keys: usize,
    new_count: u32,
    hash: u64,
    slot: u32,
    other_hash: u64,
    other: usize,
)
    requires
        other != keys,
        other_hash != hash,
        shapes.contains_key(keys),
    ensures
        ({
            let was = shapes[keys];
            let noted = append_noted(shapes, keys, new_count, hash, slot);
            let hit = hit_noted(shapes, keys, hash, slot);
            &&& was.indexed_len + 1 != new_count ==> noted == shapes
            &&& was.indexed_len + 1 == new_count ==> {
                &&& noted[keys].indexed_len == new_count
                &&& candidates(noted[keys].slots, hash) == candidates(was.slots, hash).push(slot)
                &&& candidates(noted[keys].slots, other_hash) == candidates(
                    was.slots,
                    other_hash,
                )
            }
            &&& hit[keys].indexed_len == was.indexed_len
            &&& candidates(hit[keys].slots, hash) == candidates(was.slots, hash).push(slot)
            &&& candidates(hit[keys].slots, other_hash) == candidates(was.slots, other_hash)
            &&& noted.dom() == shapes.dom()
            &&& hit.dom() == shapes.dom()
            &&& noted[keys].shape_id == was.shape_id
            &&& hit[keys].shape_id == was.shape_id
            &&& noted[other] == shapes[other]
            &&& hit[other] == shapes[other]
        }),
{
    assert(append_noted(shapes, keys, new_count, hash, slot).dom() =~= shapes.dom());
    assert(hit_noted(shapes, keys, hash, slot).dom() =~= shapes.dom());
}

/// Without a record there is nothing to note.
pub proof fn nothing_is_noted_without_a_record(
    shapes: Shapes,
    keys: usize,
    new_count: u32,
    hash: u64,
    slot: u32,
)
    requires
        !shapes.contains_key(keys),
    ensures
        append_noted(shapes, keys, new_count, hash, slot) == shapes,
        hit_noted(shapes, keys, hash, slot) == shapes,
{
}

/// The record of an array that grew is at the new place alone, and other records
/// stay where they are.
pub proof fn grown_keys_leave_their_place(
    shapes: Shapes,
    old_keys: usize,
    new_keys: usize,
    other: usize,
)
    requires
        shapes.contains_key(old_keys),
        old_keys != 0,
        new_keys != 0,
        old_keys != new_keys,
        other != old_keys,
        other != new_keys,
    ensures
        ({
            let after = keys_grown(shapes, old_keys, new_keys);
            &&& !after.contains_key(old_keys)
            &&& after.contains_key(other) == shapes.contains_key(other)
            &&& after[other] == shapes[other]
            &&& keys_grown(shapes, old_keys, old_keys) == shapes
        }),
{
}

} // verus!
