//! Allocation of objects, and reads and writes of their own properties.

use vstd::prelude::*;

use crate::gc::GcEvent;
use crate::heap::{
    alloc_limit, array_at, fresh_header, frontier_after, object_at, string_at, with_field, CellView,
    Cells, EntryView, GcHeader, Heap, HeapCell, ObjectCell, ObjectHeader, ObjectView,
    GC_HEADER_SIZE, INLINE_SLOT_FLOOR, OBJECT_HEADER_SIZE, OBJECT_TYPE_REGULAR,
};
use crate::hot_tables::ObjectHotTables;
use crate::ic::{read_header, read_next, read_shapes, wants_stamp};
use crate::key_lists::{
    array_room, elements, extend_keys, extended, extended_addr, extended_frontier, roomy,
};
use crate::keys::{
    array_get, array_length, bucket_of, dense_slots, fnv1a, interned_addr, interned_cells,
    interned_key_ptr, js_array_length, js_string_key_bytes, js_string_key_matches, key_bytes,
    key_content_hash, lemma_found_interned, lemma_interned_spells, lemma_same_arrays_resolve,
    resolved, with_interned,
};
use crate::keys_index::{keys_index_insert, keys_index_lookup, KEYS_INDEX_THRESHOLD};
use crate::learned_inline::{learned_count, learned_noted, LearnedEntry, LearnedInlineTable};
use crate::method_names::bytes_equal;
use crate::object_slots::{
    field_store, keys_barrier, rekeyed_header, set_object_keys_array, stamp_stays_true,
    stamp_true, store_object_field_slot, with_header,
};
use crate::overflow::{
    overflow_get, overflow_set, writes_pad_with_undefined, OverflowView,
};
use crate::runtime::{ObjectRuntime, ObjectState};
use crate::shapes::{
    after_id, append_noted, drew, ensured, ensured_next, found_slot, hit_noted, ids_distinct,
    ids_stay_sound, is_shape_id, keys_grown, looked_up, new_ids_are_drawn, next_id, shape_id,
    shape_id_for_keys_ensure, shape_note_hit, ShapeIds, Shapes, SHAPE_ID_END,
};
use crate::transition::{
    edge_shared, transition_cache_insert, transition_cache_lookup, transition_hit,
    transition_shared, transition_slot, TransitionEntry, TRANSITION_CACHE_EAGER_SHARE_MAX_SLOT,
};
use crate::value::{
    boxed, payload, string_boxes_round_trip, tagged, JSValue, POINTER_TAG, STRING_TAG, TAG_FALSE,
    TAG_TRUE, TAG_UNDEFINED,
};
use crate::world::{
    edge_source_ok, extended_world, kept, keys_ok, lemma_allocated, lemma_edge_added,
    lemma_extended, lemma_fielded, lemma_headed, lemma_hit, lemma_marked, lemma_miss,
    lemma_recorded, lemma_spelled, may_extend, own_keys, same_properties, slot_value, World,
};

verus! {

// ---------------------------------------------------------------------------
// Allocation
// ---------------------------------------------------------------------------
/// The header of an object that was just allocated.
pub open spec fn newborn_header(class_id: u32, field_count: u32) -> ObjectHeader {
    ObjectHeader {
        object_type: OBJECT_TYPE_REGULAR,
        class_id,
        parent_class_id: 0,
        field_count,
        keys_array: 0,
        meta: 0,
    }
}

/// An object that was just allocated, its slots all undefined.
pub open spec fn newborn_object(header: ObjectHeader) -> EntryView {
    EntryView {
        gc: fresh_header(),
        cell: CellView::Object(
            ObjectView {
                header,
                fields: Seq::new(alloc_limit(header) as nat, |i: int| TAG_UNDEFINED),
            },
        ),
    }
}

/// Room on the heap that an object takes.
pub open spec fn object_room(field_count: u32) -> int {
    GC_HEADER_SIZE + OBJECT_HEADER_SIZE + 8 * alloc_limit(newborn_header(0, field_count))
}

/// Allocates an object with the slots that its header lets a reader touch.
pub(crate) fn allocate_object(rt: &mut ObjectRuntime, header: ObjectHeader) -> (obj: usize)
    requires
        old(rt).heap.wf(),
        object_room(header.field_count) <= old(rt).heap.room(),
    ensures
        final(rt).heap.wf(),
        obj == old(rt).heap.next_cell(),
        !old(rt).heap@.contains_key(obj),
        final(rt).heap@ == old(rt).heap@.insert(obj, newborn_object(header)),
        final(rt).heap.room() == old(rt).heap.room() - object_room(header.field_count),
        final(rt).heap.frontier() == frontier_after(
            old(rt).heap.frontier(),
            newborn_object(header).cell,
        ),
        *final(rt) == (ObjectRuntime { heap: final(rt).heap, ..*old(rt) }),
{
    let slots: u32 = if header.field_count >= INLINE_SLOT_FLOOR {
        header.field_count
    } else {
        INLINE_SLOT_FLOOR
    };
    let fields: Vec<u64> = vec![TAG_UNDEFINED; slots as usize];
    let cell = ObjectCell { header, fields };
    proof {
        assert(cell@ == (ObjectView {
            header,
            fields: Seq::new(alloc_limit(header) as nat, |i: int| TAG_UNDEFINED),
        })) by {
            assert(cell@.fields =~= Seq::new(alloc_limit(header) as nat, |i: int| TAG_UNDEFINED));
        }
    }
    rt.heap.allocate(HeapCell::Object(cell), OBJECT_HEADER_SIZE + 8 * slots as usize)
}

/// Allocates an object without properties.
pub fn js_object_alloc(rt: &mut ObjectRuntime, class_id: u32, field_count: u32) -> (obj: usize)
    requires
        old(rt).wf(),
        object_room(field_count) <= old(rt).heap.room(),
    ensures
        final(rt).wf(),
        obj == old(rt).heap.next_cell(),
        !old(rt).heap@.contains_key(obj),
        final(rt).heap@ == old(rt).heap@.insert(
            obj,
            newborn_object(newborn_header(class_id, field_count)),
        ),
        final(rt).heap.room() == old(rt).heap.room() - object_room(field_count),
        *final(rt) == (ObjectRuntime { heap: final(rt).heap, ..*old(rt) }),
        forall|key: Seq<u8>| #[trigger] final(rt).world().property(obj, key) is None,
        forall|o: usize, key: Seq<u8>|
            object_at(old(rt).heap@, o) is Some ==> #[trigger] final(rt).world().property(o, key)
                == old(rt).world().property(o, key),
{
    let header = ObjectHeader {
        object_type: OBJECT_TYPE_REGULAR,
        class_id,
        parent_class_id: 0,
        field_count,
        keys_array: 0,
        meta: 0,
    };
    let obj = allocate_object(rt, header);
    proof {
        let w = old(rt).world();
        lemma_allocated(w, obj, newborn_object(header));
        assert(rt.world() == (World { cells: rt.heap@, ..w }));
        assert(own_keys(rt.heap@, obj).len() == 0);
    }
    obj
}

// ---------------------------------------------------------------------------
// Slots
// ---------------------------------------------------------------------------
/// `after` is `before` with `bits` in a slot of `obj`, inline or on the side.
pub open spec fn slot_stored(
    before: World,
    after: World,
    obj: usize,
    slot: int,
    bits: u64,
) -> bool {
    &&& after.shapes == before.shapes
    &&& after.edges == before.edges
    &&& after.cache == before.cache
    &&& kept(before.cells, after.cells)
    &&& forall|o: usize|
        (#[trigger] object_at(after.cells, o)) is Some <==> object_at(before.cells, o) is Some
    &&& forall|o: usize| #[trigger] own_keys(after.cells, o) == own_keys(before.cells, o)
    &&& forall|o: usize|
        o != obj ==> #[trigger] object_at(after.cells, o) == object_at(before.cells, o)
    &&& slot_value(after.cells, after.overflow, obj, slot) == bits
    &&& forall|o: usize, i: int|
        0 <= i && (o != obj || i != slot) ==> #[trigger] slot_value(
            after.cells,
            after.overflow,
            o,
            i,
        ) == slot_value(before.cells, before.overflow, o, i)
}

/// The reports of a store into a slot of an object with this header.
pub open spec fn slot_reports(header: ObjectHeader, obj: usize, slot: usize, bits: u64) -> Seq<
    GcEvent,
> {
    if slot < alloc_limit(header) {
        seq![field_store(obj, slot, bits)]
    } else {
        seq![
            GcEvent::LayoutNote { owner: obj, index: slot, bits },
            GcEvent::ExternalSlotBarrier { owner: obj, index: slot, bits },
        ]
    }
}

/// The header once a slot was stored. An inline slot counts as a field.
pub open spec fn stored_header(header: ObjectHeader, slot: int) -> ObjectHeader {
    if header.field_count <= slot < alloc_limit(header) {
        ObjectHeader { field_count: (slot + 1) as u32, ..header }
    } else {
        header
    }
}

/// The cells once a slot was stored.
pub open spec fn stored_cells(cells: Cells, obj: usize, slot: int, bits: u64) -> Cells {
    let header = object_at(cells, obj)->0.header;
    if slot < alloc_limit(header) {
        with_field(with_header(cells, obj, stored_header(header, slot)), obj, slot, bits)
    } else {
        cells
    }
}

/// The fields on the side once a slot was stored.
pub open spec fn stored_overflow(
    table: OverflowView,
    header: ObjectHeader,
    obj: usize,
    slot: int,
    bits: u64,
) -> OverflowView {
    if slot < alloc_limit(header) {
        table
    } else {
        table.written(obj, slot, bits)
    }
}

/// The learned widths once a slot was stored.
pub open spec fn stored_width(
    entries: Seq<LearnedEntry>,
    header: ObjectHeader,
    slot: int,
) -> Seq<LearnedEntry> {
    if slot < alloc_limit(header) {
        entries
    } else {
        learned_noted(entries, header.class_id, (slot + 1) as u32)
    }
}

/// Writes a slot of an object.
fn store_slot(rt: &mut ObjectRuntime, obj: usize, slot: u32, bits: u64)
    requires
        old(rt).wf(),
        object_at(old(rt).heap@, obj) is Some,
        slot < u32::MAX,
    ensures
        final(rt).wf(),
        slot_stored(old(rt).world(), final(rt).world(), obj, slot as int, bits),
        final(rt).heap.frontier() == old(rt).heap.frontier(),
        final(rt).interned == old(rt).interned,
        final(rt).shapes == old(rt).shapes,
        final(rt).hot == (ObjectHotTables { overflow: final(rt).hot.overflow, ..old(rt).hot }),
        ({
            let header = object_at(old(rt).heap@, obj)->0.header;
            &&& final(rt).heap@ == stored_cells(old(rt).heap@, obj, slot as int, bits)
            &&& final(rt).hot.overflow@ == stored_overflow(
                old(rt).hot.overflow@,
                header,
                obj,
                slot as int,
                bits,
            )
            &&& final(rt).learned.entries@ == stored_width(
                old(rt).learned.entries@,
                header,
                slot as int,
            )
            &&& final(rt).gc@ == old(rt).gc@ + slot_reports(header, obj, slot as usize, bits)
        }),
{
    let ghost w0 = rt.world();
    let mut header = match rt.heap.object(obj) {
        None => {
            return;
        },
        Some(o) => o.header,
    };
    assert(rt.heap@.contains_key(obj));
    let limit: u32 = if header.field_count >= INLINE_SLOT_FLOOR {
        header.field_count
    } else {
        INLINE_SLOT_FLOOR
    };
    proof {
        assert(with_header(w0.cells, obj, header) =~= w0.cells);
    }
    if slot < limit {
        if header.field_count <= slot {
            header.field_count = slot + 1;
            rt.heap.set_object_header(obj, header);
            proof {
                let h0 = object_at(w0.cells, obj)->0.header;
                if h0.keys_array != 0 {
                    assert(keys_ok(w0.cells, h0.keys_array));
                }
                lemma_headed(w0, obj, header);
                assert forall|o: usize| #[trigger] own_keys(rt.heap@, o) == own_keys(
                    w0.cells,
                    o,
                ) by {
                    assert(own_keys(rt.heap@, o) =~= own_keys(w0.cells, o));
                }
            }
        }
        let ghost w1 = rt.world();
        store_object_field_slot(&mut rt.heap, &mut rt.gc, obj, slot as usize, bits);
        proof {
            lemma_fielded(w1, obj, slot as int, bits);
            assert(rt.world() == (World { cells: rt.heap@, ..w1 }));
            assert(rt.gc@ =~= old(rt).gc@ + slot_reports(header, obj, slot as usize, bits));
        }
    } else {
        overflow_set(
            &mut rt.hot.overflow,
            &rt.heap,
            &mut rt.learned,
            &mut rt.gc,
            obj,
            slot as usize,
            bits,
        );
        proof {
            assert(rt.gc@ =~= old(rt).gc@ + slot_reports(header, obj, slot as usize, bits));
        }
    }
}

// ---------------------------------------------------------------------------
// Finding a key
// ---------------------------------------------------------------------------
/// The position of a key among elements that are heap strings.
fn scan_keys(heap: &Heap, keys: usize, key: usize) -> (r: Option<u32>)
    requires
        heap.wf(),
        keys_ok(heap@, keys),
        string_at(heap@, key) is Some,
    ensures
        ({
            let list = elements(heap@, keys);
            match r {
                Some(i) => i < list.len() && string_at(heap@, payload(list[i as int]))
                    == string_at(heap@, key),
                None => forall|i: int|
                    0 <= i < list.len() ==> string_at(heap@, payload(#[trigger] list[i]))
                        != string_at(heap@, key),
            }
        }),
{
    let ghost list = elements(heap@, keys);
    match heap.array(keys) {
        None => None,
        Some(a) => {
            let mut i: u32 = 0;
            while i < a.length
                invariant
                    i <= a.length <= a.slots@.len(),
                    list == a.slots@.take(a.length as int),
                    list == elements(heap@, keys),
                    keys_ok(heap@, keys),
                    string_at(heap@, key) is Some,
                    forall|j: int|
                        0 <= j < i ==> string_at(heap@, payload(#[trigger] list[j])) != string_at(
                            heap@,
                            key,
                        ),
                decreases a.length - i,
            {
                let stored = JSValue::from_bits(a.slots[i as usize]);
                assert(list[i as int] == stored.bits);
                if js_string_key_matches(heap, stored, key) {
                    return Some(i);
                }
                i += 1;
            }
            None
        },
    }
}

/// The records after `name` was searched in the keys array at `keys` and found
/// at `at`, or nowhere. A long array is looked up by its record; what only a
/// scan finds, the record remembers.
pub open spec fn searched(
    shapes: Shapes,
    next: u32,
    cells: Cells,
    keys: usize,
    name: Seq<u8>,
    at: Option<int>,
) -> Shapes {
    let count = array_length(cells, keys);
    let long = count >= KEYS_INDEX_THRESHOLD;
    let after = if long {
        looked_up(shapes, next, cells, keys, count, true)
    } else {
        shapes
    };
    let hit = long && found_slot(
        shapes,
        next,
        cells,
        keys,
        name,
        fnv1a(name),
        count,
        true,
    ) is Some;
    if at is Some && !hit {
        hit_noted(after, keys, fnv1a(name), at->0 as u32)
    } else {
        after
    }
}

/// The counter of ids after a search.
pub open spec fn searched_next(shapes: Shapes, next: u32, cells: Cells, keys: usize) -> u32 {
    if array_length(cells, keys) < KEYS_INDEX_THRESHOLD || shapes.contains_key(keys) {
        next
    } else {
        after_id(next)
    }
}

/// Where a name is among the keys of an object.
pub open spec fn key_at(names: Seq<Seq<u8>>, name: Seq<u8>) -> Option<int> {
    if names.contains(name) {
        Some(names.index_of(name))
    } else {
        None
    }
}

/// Finds a key in a keys array: by the record of a long one, else by a scan,
/// whose result the record remembers.
fn find_slot(
    rt: &mut ObjectRuntime,
    ids: &mut ShapeIds,
    keys: usize,
    key: usize,
) -> (r: Option<u32>)
    requires
        old(rt).wf(),
        old(rt).draws_from(*old(ids)),
        keys_ok(old(rt).heap@, keys),
        string_at(old(rt).heap@, key) is Some,
    ensures
        final(rt).wf(),
        *final(rt) == (ObjectRuntime { shapes: final(rt).shapes, ..*old(rt) }),
        drew(old(rt).shapes@, old(ids).next, final(rt).shapes@, final(ids).next),
        forall|k: usize| #[trigger]
            old(rt).shapes@.contains_key(k) ==> final(rt).shapes@.contains_key(k)
                && final(rt).shapes@[k].shape_id == old(rt).shapes@[k].shape_id,
        final(rt).shapes@ == searched(
            old(rt).shapes@,
            old(ids).next,
            old(rt).heap@,
            keys,
            string_at(old(rt).heap@, key)->0,
            match r {
                Some(i) => Some(i as int),
                None => None,
            },
        ),
        final(ids).next == searched_next(old(rt).shapes@, old(ids).next, old(rt).heap@, keys),
        old(ids).next < SHAPE_ID_END ==> if final(rt).shapes@.contains_key(keys) {
            final(rt).shapes@[keys].shape_id != 0
        } else {
            final(ids).next < SHAPE_ID_END
        },
        ({
            let list = elements(old(rt).heap@, keys);
            match r {
                Some(i) => i < list.len() && string_at(old(rt).heap@, payload(list[i as int]))
                    == string_at(old(rt).heap@, key),
                None => forall|i: int|
                    0 <= i < list.len() ==> string_at(old(rt).heap@, payload(#[trigger] list[i]))
                        != string_at(old(rt).heap@, key),
            }
        }),
{
    let ghost w0 = rt.world();
    let ghost count = array_length(rt.heap@, keys);
    proof {
        assert(resolved(rt.heap@, keys) == keys);
        assert(dense_slots(rt.heap@, keys) =~= elements(rt.heap@, keys));
    }
    let mut hash: u64 = 0;
    if let Some(s) = rt.heap.string(key) {
        hash = key_content_hash(s);
        let found = keys_index_lookup(
            &mut rt.shapes,
            ids,
            &rt.heap,
            keys,
            s.bytes.as_slice(),
            hash,
        );
        proof {
            ids_stay_sound(w0.shapes, old(ids).next, w0.cells, keys, 0, count, 0, 0, true);
            new_ids_are_drawn(w0.shapes, old(ids).next, w0.cells, keys, 0, count, 0, 0, true);
            lemma_recorded(w0, rt.shapes@);
            assert(rt.world() == (World { shapes: rt.shapes@, ..w0 }));
        }
        if let Some(i) = found {
            proof {
                let bits = elements(rt.heap@, keys)[i as int];
                assert(tagged(bits, STRING_TAG));
            }
            return Some(i);
        }
    }
    let ghost w1 = rt.world();
    let scanned = scan_keys(&rt.heap, keys, key);
    if let Some(i) = scanned {
        shape_note_hit(&mut rt.shapes, keys, hash, i);
        proof {
            ids_stay_sound(w1.shapes, ids.next, w1.cells, keys, 0, 0, hash, i, true);
            new_ids_are_drawn(w1.shapes, ids.next, w1.cells, keys, 0, 0, hash, i, true);
            lemma_recorded(w1, rt.shapes@);
            assert(rt.world() == (World { shapes: rt.shapes@, ..w1 }));
        }
    }
    scanned
}

// ---------------------------------------------------------------------------
// Giving an object a key
// ---------------------------------------------------------------------------
/// `names` with `key` in it, last if it is new.
pub open spec fn with_key(names: Seq<Seq<u8>>, key: Seq<u8>) -> Seq<Seq<u8>> {
    if names.contains(key) {
        names
    } else {
        names.push(key)
    }
}

/// `after` is `before` where `obj` has `key`, at `slot`. No value changes, and
/// nothing of any other object.
pub open spec fn key_bound(
    before: World,
    after: World,
    obj: usize,
    key: Seq<u8>,
    slot: int,
) -> bool {
    &&& after.overflow == before.overflow
    &&& kept(before.cells, after.cells)
    &&& own_keys(after.cells, obj) == with_key(own_keys(before.cells, obj), key)
    &&& 0 <= slot < own_keys(after.cells, obj).len()
    &&& own_keys(after.cells, obj)[slot] == key
    &&& forall|o: usize|
        (#[trigger] object_at(after.cells, o)) is Some <==> object_at(before.cells, o) is Some
    &&& forall|o: usize|
        o != obj ==> #[trigger] object_at(after.cells, o) == object_at(before.cells, o)
    &&& object_at(after.cells, obj)->0.fields == object_at(before.cells, obj)->0.fields
    &&& object_at(after.cells, obj)->0.header.field_count == object_at(
        before.cells,
        obj,
    )->0.header.field_count
    &&& forall|o: usize|
        o != obj && object_at(before.cells, o) is Some ==> #[trigger] own_keys(after.cells, o)
            == own_keys(before.cells, o)
}

/// Room on the heap that one more key of `obj` may take.
pub open spec fn key_room(cells: Cells, obj: usize) -> int {
    array_room(roomy(own_keys(cells, obj).len() as int))
}

/// The keys array that an object adopts with the key interned at `key`, and the
/// slot of the key in it, if there is an edge.
pub open spec fn edge_from(s: ObjectState, obj: usize, key: usize) -> Option<(usize, u32)> {
    transition_hit(s.edges, s.cells, object_at(s.cells, obj)->0.header.keys_array, key)
}

/// The state once an object followed the edge for the key interned at `key`.
pub open spec fn key_adopted(s: ObjectState, obj: usize, key: usize) -> ObjectState {
    let header = object_at(s.cells, obj)->0.header;
    let (keys, _) = edge_from(s, obj, key)->0;
    ObjectState {
        cells: with_header(
            transition_shared(s.edges, s.cells, header.keys_array, key),
            obj,
            rekeyed_header(header, keys),
        ),
        gc: s.gc.push(keys_barrier(obj, keys)),
        ..s
    }
}

/// Adopts the keys array at the end of a believed edge.
fn adopt_keys(rt: &mut ObjectRuntime, obj: usize, key: usize) -> (r: Option<u32>)
    requires
        old(rt).wf(),
        object_at(old(rt).heap@, obj) is Some,
        string_at(old(rt).heap@, key) is Some,
    ensures
        final(rt).wf(),
        forall|n: u32| #[trigger]
            final(rt).state(n) == (match edge_from(old(rt).state(n), obj, key) {
                Some(_) => key_adopted(old(rt).state(n), obj, key),
                None => old(rt).state(n),
            }),
        r == (match edge_from(old(rt).state(0), obj, key) {
            Some((_, slot)) => Some(slot),
            None => None,
        }),
        r matches Some(slot) ==> key_bound(
            old(rt).world(),
            final(rt).world(),
            obj,
            string_at(old(rt).heap@, key)->0,
            slot as int,
        ),
{
    let ghost w0 = rt.world();
    let prev = match rt.heap.object(obj) {
        None => {
            return None;
        },
        Some(o) => o.header.keys_array,
    };
    match transition_cache_lookup(&rt.hot.transition_cache, &mut rt.heap, prev, key) {
        None => {
            proof {
                lemma_miss(w0, prev, key);
            }
            None
        },
        Some((next, slot)) => {
            let ghost w1 = rt.world();
            let ghost header = object_at(w0.cells, obj)->0.header;
            proof {
                lemma_hit(w0, obj, key);
                stamp_stays_true(w1.shapes, header, next);
                lemma_spelled(w0, obj);
            }
            set_object_keys_array(&mut rt.heap, &mut rt.gc, obj, next);
            proof {
                lemma_headed(w1, obj, rekeyed_header(header, next));
                assert(rt.world() == (World { cells: rt.heap@, ..w1 }));
                let before = own_keys(w0.cells, obj);
                let after = own_keys(rt.heap@, obj);
                let list = elements(w0.cells, next);
                let name = string_at(w0.cells, key)->0;
                lemma_spelled(rt.world(), obj);
                assert(after =~= list.map_values(|b: u64| key_bytes(w0.cells, b)->0));
                assert(after[slot as int] == name);
                if next == prev {
                    assert(after =~= before);
                    assert(before.contains(name));
                } else {
                    assert(after.drop_last() =~= before);
                    assert(!before.contains(name)) by {
                        if before.contains(name) {
                            let i = choose|i: int| 0 <= i < before.len() && before[i] == name;
                            assert(after[i] == name);
                        }
                    }
                    assert(after =~= before.push(name));
                }
                assert forall|o: usize|
                    o != obj && object_at(w0.cells, o) is Some implies #[trigger] own_keys(
                    rt.heap@,
                    o,
                ) == own_keys(w0.cells, o) by {
                    assert(own_keys(rt.heap@, o) =~= own_keys(w0.cells, o));
                }
            }
            Some(slot)
        },
    }
}

/// Stamps a plain object with the id of its shape, unless ids are used up.
fn stamp_object(rt: &mut ObjectRuntime, ids: &mut ShapeIds, obj: usize)
    requires
        old(rt).wf(),
        old(rt).draws_from(*old(ids)),
        object_at(old(rt).heap@, obj) is Some,
        object_at(old(rt).heap@, obj)->0.header.class_id == 0,
        object_at(old(rt).heap@, obj)->0.header.keys_array != 0,
    ensures
        final(rt).wf(),
        final(rt).heap.frontier() == old(rt).heap.frontier(),
        *final(rt) == (ObjectRuntime {
            heap: final(rt).heap,
            shapes: final(rt).shapes,
            ..*old(rt)
        }),
        drew(old(rt).shapes@, old(ids).next, final(rt).shapes@, final(ids).next),
        ({
            let header = object_at(old(rt).heap@, obj)->0.header;
            let keys = header.keys_array;
            let shapes = ensured(old(rt).shapes@, old(ids).next, keys);
            let id = shapes[keys].shape_id;
            &&& final(rt).shapes@ == shapes
            &&& final(ids).next == ensured_next(old(rt).shapes@, old(ids).next, keys)
            &&& final(rt).heap@ == with_header(
                old(rt).heap@,
                obj,
                if id != 0 {
                    ObjectHeader { parent_class_id: id, ..header }
                } else {
                    header
                },
            )
        }),
        same_properties(old(rt).world(), final(rt).world()),
        kept(old(rt).heap@, final(rt).heap@),
        forall|o: usize| #[trigger] own_keys(final(rt).heap@, o) == own_keys(old(rt).heap@, o),
{
    let ghost w0 = rt.world();
    let mut header = match rt.heap.object(obj) {
        None => {
            return;
        },
        Some(o) => o.header,
    };
    let keys = header.keys_array;
    assert(rt.heap@.contains_key(obj));
    let count: u32 = js_array_length(&rt.heap, keys);
    let id = shape_id_for_keys_ensure(&mut rt.shapes, ids, keys, count);
    proof {
        ids_stay_sound(w0.shapes, old(ids).next, w0.cells, keys, 0, 0, 0, 0, true);
        new_ids_are_drawn(w0.shapes, old(ids).next, w0.cells, keys, 0, 0, 0, 0, true);
        lemma_recorded(w0, rt.shapes@);
        assert(rt.world() == (World { shapes: rt.shapes@, ..w0 }));
        assert(keys_ok(w0.cells, keys));
        assert(with_header(w0.cells, obj, header) =~= w0.cells);
    }
    if id != 0 {
        let ghost w1 = rt.world();
        header.parent_class_id = id;
        rt.heap.set_object_header(obj, header);
        proof {
            lemma_headed(w1, obj, header);
            assert(rt.world() == (World { cells: rt.heap@, ..w1 }));
        }
    }
    proof {
        let after = rt.world();
        assert forall|o: usize| #[trigger] own_keys(after.cells, o) == own_keys(w0.cells, o) by {
            assert(own_keys(after.cells, o) =~= own_keys(w0.cells, o));
        }
        assert forall|o: usize, k: Seq<u8>|
            object_at(w0.cells, o) is Some implies #[trigger] after.property(o, k)
            == w0.property(o, k) by {
            let at = own_keys(w0.cells, o).index_of(k);
            assert(slot_value(after.cells, after.overflow, o, at) == slot_value(
                w0.cells,
                w0.overflow,
                o,
                at,
            ));
        }
    }
}

/// The header of an object that was given a new key and with it the keys array
/// at `keys`. The first key of a plain object brings the stamp of a new shape,
/// with the id that comes next.
pub open spec fn appended_header(header: ObjectHeader, keys: usize, next: u32) -> ObjectHeader {
    let rekeyed = rekeyed_header(header, keys);
    if header.class_id == 0 && header.keys_array == 0 && next_id(next) != 0 {
        ObjectHeader { parent_class_id: next_id(next), ..rekeyed }
    } else {
        rekeyed
    }
}

/// The edge that is remembered when an object with `prev` as its keys array
/// gets the key interned at `key` and with it the array at `keys`.
pub open spec fn appended_edge(prev: usize, key: usize, keys: usize, slot: int) -> TransitionEntry {
    TransitionEntry {
        prev_keys: prev,
        key_ptr: key,
        next_keys: keys,
        slot_idx: slot as u32,
        target_len: if slot < TRANSITION_CACHE_EAGER_SHARE_MAX_SLOT {
            (slot + 1) as u32
        } else {
            0
        },
    }
}

/// The records after `name` was appended at `slot` and the object with this
/// header got the keys array at `keys`. The record of an array of its own goes
/// along; the first key of a plain object begins a shape.
pub open spec fn appended_shapes(
    shapes: Shapes,
    next: u32,
    cells: Cells,
    header: ObjectHeader,
    keys: usize,
    name: Seq<u8>,
    slot: int,
) -> Shapes {
    let prev = header.keys_array;
    let grown = if prev != 0 && !cells[prev].gc.shape_shared {
        keys_grown(shapes, prev, keys)
    } else {
        shapes
    };
    let stamped = if header.class_id == 0 && prev == 0 {
        ensured(grown, next, keys)
    } else {
        grown
    };
    if slot + 1 < KEYS_INDEX_THRESHOLD {
        stamped
    } else {
        append_noted(stamped, keys, (slot + 1) as u32, fnv1a(name), slot as u32)
    }
}

/// The reports of an appended key: the keys array is stored into the header,
/// and as the target of an edge.
pub open spec fn appended_reports(obj: usize, keys: usize) -> Seq<GcEvent> {
    seq![keys_barrier(obj, keys), GcEvent::RootStore { addr: keys }]
}

/// The state once the key interned at `key`, which the object lacks, was
/// appended to its keys.
pub open spec fn key_appended(s: ObjectState, obj: usize, key: usize) -> ObjectState {
    let header = object_at(s.cells, obj)->0.header;
    let prev = header.keys_array;
    let bits = boxed(STRING_TAG, key);
    let keys = extended_addr(s.cells, s.next_cell(), prev);
    let slot = own_keys(s.cells, obj).len() as int;
    ObjectState {
        cells: edge_shared(
            with_header(
                extended(s.cells, s.next_cell(), prev, bits),
                obj,
                appended_header(header, keys, s.next),
            ),
            keys,
            slot as u32,
        ),
        frontier: extended_frontier(s.cells, s.frontier, prev, bits),
        shapes: appended_shapes(
            s.shapes,
            s.next,
            s.cells,
            header,
            keys,
            string_at(s.cells, key)->0,
            slot,
        ),
        next: if header.class_id == 0 && prev == 0 {
            after_id(s.next)
        } else {
            s.next
        },
        edges: s.edges.update(
            transition_slot(prev, key),
            appended_edge(prev, key, keys, slot),
        ),
        gc: s.gc + appended_reports(obj, keys),
        ..s
    }
}

/// Appends a key that the object lacks, and remembers the way.
#[verifier::rlimit(40)]
fn append_key(
    rt: &mut ObjectRuntime,
    ids: &mut ShapeIds,
    obj: usize,
    key: usize,
) -> (slot: u32)
    requires
        old(rt).wf(),
        old(rt).draws_from(*old(ids)),
        object_at(old(rt).heap@, obj) is Some,
        string_at(old(rt).heap@, key) is Some,
        !own_keys(old(rt).heap@, obj).contains(string_at(old(rt).heap@, key)->0),
        key_room(old(rt).heap@, obj) <= old(rt).heap.room(),
    ensures
        final(rt).wf(),
        key_bound(
            old(rt).world(),
            final(rt).world(),
            obj,
            string_at(old(rt).heap@, key)->0,
            slot as int,
        ),
        slot < u32::MAX,
        final(rt).heap.room() >= old(rt).heap.room() - key_room(old(rt).heap@, obj),
        drew(old(rt).shapes@, old(ids).next, final(rt).shapes@, final(ids).next),
        slot == own_keys(old(rt).heap@, obj).len(),
        final(rt).state(final(ids).next) == key_appended(old(rt).state(old(ids).next), obj, key),
{
    let ghost w0 = rt.world();
    let ghost name = string_at(w0.cells, key)->0;
    let header = match rt.heap.object(obj) {
        None => {
            return 0;
        },
        Some(o) => o.header,
    };
    let prev = header.keys_array;
    let hash = match rt.heap.string(key) {
        None => {
            return 0;
        },
        Some(s) => key_content_hash(s),
    };
    let count: u32 = match rt.heap.array(prev) {
        None => 0,
        Some(a) => a.length,
    };
    let bits = JSValue::string(key).bits();
    let ghost fresh = rt.heap.next_cell();
    let ghost list = elements(w0.cells, prev);
    let ghost names = own_keys(w0.cells, obj);
    proof {
        assert(w0.cells.contains_key(key));
        assert(w0.cells.contains_key(obj));
        string_boxes_round_trip(key);
        lemma_spelled(w0, obj);
        if prev != 0 {
            assert(keys_ok(w0.cells, prev));
        }
        assert(count == list.len());
        assert forall|i: int| 0 <= i < list.len() implies string_at(
            w0.cells,
            payload(#[trigger] list[i]),
        ) != string_at(w0.cells, payload(bits)) by {
            assert(names[i] != name);
        }
        assert(may_extend(w0, obj, bits, fresh));
        lemma_extended(w0, obj, bits, fresh);
    }
    let new = extend_keys(&mut rt.heap, &mut rt.shapes, prev, bits);
    set_object_keys_array(&mut rt.heap, &mut rt.gc, obj, new);
    let ghost w1 = rt.world();
    proof {
        assert(w1 == extended_world(w0, obj, bits, fresh));
        ids_stay_sound(w0.shapes, ids.next, w0.cells, prev, new, 0, 0, 0, false);
        new_ids_are_drawn(w0.shapes, ids.next, w0.cells, prev, new, 0, 0, 0, false);
        lemma_spelled(w1, obj);
        assert(own_keys(w1.cells, obj) =~= names.push(name));
        assert forall|o: usize|
            o != obj && object_at(w0.cells, o) is Some implies #[trigger] own_keys(w1.cells, o)
            == own_keys(w0.cells, o) by {
            assert(own_keys(w1.cells, o) =~= own_keys(w0.cells, o));
        }
    }
    if prev == 0 && header.class_id == 0 {
        proof {
            if w0.shapes.contains_key(new) {
                assert(array_at(w0.cells, new) is Some);
            }
        }
        stamp_object(rt, ids, obj);
    }
    let ghost w2 = rt.world();
    proof {
        assert(object_at(w2.cells, obj)->0.header.keys_array == new);
        assert forall|a: usize| #[trigger] array_at(w2.cells, a) == array_at(w1.cells, a) by {}
        assert(keys_ok(w2.cells, new));
        assert(resolved(w2.cells, new) == new);
    }
    keys_index_insert(&mut rt.shapes, new, count + 1, hash, count);
    proof {
        let more = (count + 1) as u32;
        ids_stay_sound(w2.shapes, ids.next, w2.cells, new, 0, more, hash, count, true);
        new_ids_are_drawn(w2.shapes, ids.next, w2.cells, new, 0, more, hash, count, true);
        lemma_recorded(w2, rt.shapes@);
        assert(rt.world() == (World { shapes: rt.shapes@, ..w2 }));
    }
    let ghost w3 = rt.world();
    proof {
        assert(edge_source_ok(
            w3.cells,
            TransitionEntry {
                prev_keys: prev,
                key_ptr: key,
                next_keys: new,
                slot_idx: count,
                target_len: 0,
            },
        ));
        lemma_edge_added(w3, prev, key, new, count);
    }
    transition_cache_insert(
        &mut rt.hot.transition_cache,
        &mut rt.heap,
        &mut rt.gc,
        prev,
        key,
        new,
        count,
    );
    proof {
        let w4 = rt.world();
        assert(w4 == (World { cells: w4.cells, edges: w4.edges, ..w3 }));
        assert forall|o: usize| #[trigger] own_keys(w4.cells, o) == own_keys(w3.cells, o) by {
            assert(own_keys(w4.cells, o) =~= own_keys(w3.cells, o));
        }
        assert(own_keys(w4.cells, obj) == with_key(names, name));
        assert(own_keys(w4.cells, obj)[count as int] == name);
        let was = old(rt).state(old(ids).next);
        let is = key_appended(was, obj, key);
        assert(rt.gc@ =~= was.gc + appended_reports(obj, new));
        assert(w2.cells =~= with_header(
            extended(w0.cells, fresh, prev, bits),
            obj,
            appended_header(header, new, was.next),
        ));
        assert(rt.heap@ == is.cells);
        assert(rt.hot.transition_cache@ =~= is.edges);
    }
    count
}

// ---------------------------------------------------------------------------
// Writing
// ---------------------------------------------------------------------------
/// The position of an element that occurs once.
proof fn lemma_only_position(names: Seq<Seq<u8>>, i: int)
    requires
        names.no_duplicates(),
        0 <= i < names.len(),
    ensures
        names.contains(names[i]),
        names.index_of(names[i]) == i,
{
}

/// A property that was set reads back: giving an object a key and storing into
/// its slot changes that one property, of that one object. The key comes last
/// if it is new.
pub proof fn set_property_reads_back(
    before: World,
    bound: World,
    after: World,
    obj: usize,
    key: Seq<u8>,
    slot: int,
    bits: u64,
)
    requires
        before.ok(),
        bound.ok(),
        object_at(before.cells, obj) is Some,
        key_bound(before, bound, obj, key, slot),
        slot_stored(bound, after, obj, slot, bits),
    ensures
        own_keys(after.cells, obj) == with_key(own_keys(before.cells, obj), key),
        after.property(obj, key) == Some(bits),
        forall|k: Seq<u8>|
            k != key ==> #[trigger] after.property(obj, k) == before.property(obj, k),
        forall|o: usize, k: Seq<u8>|
            o != obj && object_at(before.cells, o) is Some ==> #[trigger] after.property(o, k)
                == before.property(o, k),
{
    let names = own_keys(before.cells, obj);
    let more = own_keys(bound.cells, obj);
    lemma_spelled(before, obj);
    lemma_spelled(bound, obj);
    lemma_only_position(more, slot);
    assert forall|i: int| 0 <= i implies #[trigger] slot_value(
        bound.cells,
        bound.overflow,
        obj,
        i,
    ) == slot_value(before.cells, before.overflow, obj, i) by {}
    assert forall|k: Seq<u8>| k != key implies #[trigger] after.property(obj, k)
        == before.property(obj, k) by {
        if names.contains(k) {
            let i = choose|i: int| 0 <= i < names.len() && names[i] == k;
            lemma_only_position(names, i);
            assert(more[i] == k);
            lemma_only_position(more, i);
        } else if more.contains(k) {
            let i = choose|i: int| 0 <= i < more.len() && more[i] == k;
            assert(names.contains(k));
        }
    }
    assert forall|o: usize, k: Seq<u8>|
        o != obj && object_at(before.cells, o) is Some implies #[trigger] after.property(o, k)
        == before.property(o, k) by {
        let mine = own_keys(before.cells, o);
        if mine.contains(k) {
            assert(object_at(bound.cells, o) == object_at(before.cells, o));
            let at = mine.index_of(k);
            assert(0 <= at < mine.len());
            assert(slot_value(bound.cells, bound.overflow, o, at) == slot_value(
                before.cells,
                before.overflow,
                o,
                at,
            ));
        }
    }
}

/// A plain object carries no stamp, or the id that its keys array has: asking
/// for that id gives the stamp and makes no record.
pub proof fn stamps_are_ids_of_current_keys(rt: ObjectRuntime, next: u32, obj: usize)
    requires
        rt.wf(),
        object_at(rt.heap@, obj) is Some,
        object_at(rt.heap@, obj)->0.header.class_id == 0,
        object_at(rt.heap@, obj)->0.header.parent_class_id != 0,
    ensures
        ({
            let header = object_at(rt.heap@, obj)->0.header;
            &&& shape_id(header.parent_class_id)
            &&& header.keys_array != 0
            &&& ensured(rt.shapes@, next, header.keys_array) == rt.shapes@
            &&& ensured_next(rt.shapes@, next, header.keys_array) == next
            &&& rt.shapes@[header.keys_array].shape_id == header.parent_class_id
        }),
{
    let w = rt.world();
    let header = object_at(w.cells, obj)->0.header;
    assert(stamp_true(w.shapes, header));
    assert(w.shapes.contains_key(header.keys_array));
}

/// Is this the first object to get `key` as its first key?
pub open spec fn first_of_its_shape(
    cells: Cells,
    edges: Seq<TransitionEntry>,
    key: Seq<u8>,
) -> bool {
    forall|i: int|
        0 <= i < edges.len() && (#[trigger] edges[i]).next_keys != 0 && edges[i].prev_keys == 0
            ==> string_at(cells, edges[i].key_ptr) != Some(key)
}

/// The state once the string at `key` has a canonical one.
pub open spec fn key_interned(s: ObjectState, key: usize) -> ObjectState {
    ObjectState {
        cells: interned_cells(s.cells, s.interned, key),
        interned: with_interned(s.cells, s.interned, key),
        ..s
    }
}

/// The state once `name` was searched among the keys of an object.
pub open spec fn key_searched(s: ObjectState, obj: usize, name: Seq<u8>) -> ObjectState {
    let keys = object_at(s.cells, obj)->0.header.keys_array;
    if keys == 0 {
        s
    } else {
        ObjectState {
            shapes: searched(
                s.shapes,
                s.next,
                s.cells,
                keys,
                name,
                key_at(own_keys(s.cells, obj), name),
            ),
            next: searched_next(s.shapes, s.next, s.cells, keys),
            ..s
        }
    }
}

/// The state once an object was given the key at `key`. The key is interned. An
/// edge is followed if there is one: its target is adopted. Else a key that the
/// object has is found where it is. A new one is appended, and an edge remembers
/// the way.
pub open spec fn key_given(s: ObjectState, obj: usize, key: usize) -> ObjectState {
    let name = string_at(s.cells, key)->0;
    let canonical = interned_addr(s.cells, s.interned, key);
    let interned = key_interned(s, key);
    let found = key_searched(interned, obj, name);
    if edge_from(interned, obj, canonical) is Some {
        key_adopted(interned, obj, canonical)
    } else if own_keys(s.cells, obj).contains(name) {
        found
    } else {
        key_appended(found, obj, canonical)
    }
}

/// Finds or makes the slot for a key of an object.
#[verifier::rlimit(40)]
fn bind_key(
    rt: &mut ObjectRuntime,
    ids: &mut ShapeIds,
    obj: usize,
    key: usize,
) -> (slot: u32)
    requires
        old(rt).wf(),
        old(rt).draws_from(*old(ids)),
        object_at(old(rt).heap@, obj) is Some,
        string_at(old(rt).heap@, key) is Some,
        key_room(old(rt).heap@, obj) <= old(rt).heap.room(),
    ensures
        final(rt).wf(),
        key_bound(
            old(rt).world(),
            final(rt).world(),
            obj,
            string_at(old(rt).heap@, key)->0,
            slot as int,
        ),
        slot < u32::MAX,
        final(rt).heap.room() >= old(rt).heap.room() - key_room(old(rt).heap@, obj),
        drew(old(rt).shapes@, old(ids).next, final(rt).shapes@, final(ids).next),
        final(rt).state(final(ids).next) == key_given(old(rt).state(old(ids).next), obj, key),
{
    let ghost w0 = rt.world();
    let ghost name = string_at(w0.cells, key)->0;
    let kp = interned_key_ptr(&mut rt.heap, &mut rt.interned, key);
    let ghost w1 = rt.world();
    proof {
        let hash = fnv1a(name);
        lemma_found_interned(w0.cells, bucket_of(old(rt).interned@, hash), name, 0);
        if w1.cells != w0.cells {
            lemma_marked(w0, key, GcHeader { interned: true, ..w0.cells[key].gc });
        }
        assert(w1 == (World { cells: w1.cells, ..w0 }));
        assert(string_at(w1.cells, kp) == Some(name));
        assert(own_keys(w1.cells, obj) == own_keys(w0.cells, obj));
        assert forall|a: usize| #[trigger] string_at(w0.cells, a) == string_at(w1.cells, a) by {}
    }
    let ghost s1 = rt.state(ids.next);
    assert(s1 == key_interned(old(rt).state(old(ids).next), key));
    if let Some(slot) = adopt_keys(rt, obj, kp) {
        proof {
            assert(edge_from(s1, obj, kp) is Some);
            assert(rt.state(ids.next) == key_adopted(s1, obj, kp));
            lemma_spelled(rt.world(), obj);
        }
        return slot;
    }
    assert(rt.state(ids.next) == s1);
    let prev = match rt.heap.object(obj) {
        None => 0,
        Some(o) => o.header.keys_array,
    };
    proof {
        lemma_spelled(w1, obj);
        if prev != 0 {
            assert(keys_ok(w1.cells, prev));
        }
    }
    let ghost names = own_keys(w1.cells, obj);
    if prev != 0 {
        if let Some(i) = find_slot(rt, ids, prev, kp) {
            proof {
                assert(names[i as int] == name);
                lemma_only_position(names, i as int);
                assert(rt.state(ids.next) == key_searched(s1, obj, name));
            }
            return i;
        }
    }
    proof {
        assert(!names.contains(name)) by {
            if names.contains(name) {
                let i = choose|i: int| 0 <= i < names.len() && names[i] == name;
                let bits = elements(w1.cells, prev)[i];
                assert(string_at(w1.cells, payload(bits)) == Some(names[i]));
            }
        }
        assert(rt.state(ids.next) == key_searched(s1, obj, name));
    }
    append_key(rt, ids, obj, kp)
}

/// `after` is `before` with the property `name` of `obj` set to `bits`. The key
/// comes last if it is new. Nothing changes of any other object, nor of the
/// properties of `obj` but this one.
pub open spec fn property_set(
    before: World,
    after: World,
    obj: usize,
    name: Seq<u8>,
    bits: u64,
) -> bool {
    &&& kept(before.cells, after.cells)
    &&& forall|o: usize|
        o != obj ==> #[trigger] object_at(after.cells, o) == object_at(before.cells, o)
    &&& own_keys(after.cells, obj) == with_key(own_keys(before.cells, obj), name)
    &&& after.property(obj, name) == Some(bits)
    &&& forall|k: Seq<u8>|
        k != name ==> #[trigger] after.property(obj, k) == before.property(obj, k)
    &&& forall|o: usize, k: Seq<u8>|
        o != obj && object_at(before.cells, o) is Some ==> #[trigger] after.property(o, k)
            == before.property(o, k)
}

/// The state once a slot of an object was stored.
pub open spec fn slot_written(s: ObjectState, obj: usize, slot: int, bits: u64) -> ObjectState {
    let header = object_at(s.cells, obj)->0.header;
    ObjectState {
        cells: stored_cells(s.cells, obj, slot, bits),
        overflow: stored_overflow(s.overflow, header, obj, slot, bits),
        learned: stored_width(s.learned, header, slot),
        gc: s.gc + slot_reports(header, obj, slot as usize, bits),
        ..s
    }
}

/// The state once the property at `key` was set: the object is given the key,
/// then the slot of the key is stored, which is reported last.
pub open spec fn property_written(
    s: ObjectState,
    obj: usize,
    key: usize,
    bits: u64,
) -> ObjectState {
    let given = key_given(s, obj, key);
    let slot = own_keys(given.cells, obj).index_of(string_at(s.cells, key)->0);
    slot_written(given, obj, slot, bits)
}

/// Sets a property of an object to `value`. A key that the object lacks becomes
/// its last one.
pub fn js_object_set_field_by_name(
    rt: &mut ObjectRuntime,
    ids: &mut ShapeIds,
    obj: usize,
    key: usize,
    value: JSValue,
)
    requires
        old(rt).wf(),
        old(rt).draws_from(*old(ids)),
        object_at(old(rt).heap@, obj) is Some,
        string_at(old(rt).heap@, key) is Some,
        key_room(old(rt).heap@, obj) <= old(rt).heap.room(),
    ensures
        final(rt).wf(),
        final(rt).heap.room() >= old(rt).heap.room() - key_room(old(rt).heap@, obj),
        drew(old(rt).shapes@, old(ids).next, final(rt).shapes@, final(ids).next),
        property_set(
            old(rt).world(),
            final(rt).world(),
            obj,
            string_at(old(rt).heap@, key)->0,
            value.bits,
        ),
        final(rt).state(final(ids).next) == property_written(
            old(rt).state(old(ids).next),
            obj,
            key,
            value.bits,
        ),
        ({
            let was = object_at(old(rt).heap@, obj)->0.header;
            let is = object_at(final(rt).heap@, obj)->0.header;
            was.class_id == 0 && was.keys_array == 0 && old(ids).next < SHAPE_ID_END
                && first_of_its_shape(
                old(rt).heap@,
                old(rt).hot.transition_cache@,
                string_at(old(rt).heap@, key)->0,
            ) ==> shape_id(is.parent_class_id)
        }),
{
    let ghost w0 = rt.world();
    let ghost s0 = rt.state(ids.next);
    let ghost name = string_at(w0.cells, key)->0;
    let slot = bind_key(rt, ids, obj, key);
    let ghost w1 = rt.world();
    let ghost s1 = rt.state(ids.next);
    store_slot(rt, obj, slot, value.bits());
    proof {
        set_property_reads_back(w0, w1, rt.world(), obj, name, slot as int, value.bits);
        lemma_spelled(w1, obj);
        lemma_only_position(own_keys(w1.cells, obj), slot as int);
        assert(rt.state(ids.next) == slot_written(s1, obj, slot as int, value.bits));
        let prev = object_at(w0.cells, obj)->0.header.keys_array;
        let canonical = interned_addr(w0.cells, s0.interned, key);
        lemma_interned_spells(w0.cells, s0.interned, key);
        assert(0 <= transition_slot(prev, canonical) < w0.edges.len());
        if edge_from(key_interned(s0, key), obj, canonical) is Some {
            assert(w0.edges[transition_slot(prev, canonical)].next_keys != 0);
        }
    }
}

// ---------------------------------------------------------------------------
// Reading
// ---------------------------------------------------------------------------
/// The value in a slot of an object.
pub fn load_slot(rt: &ObjectRuntime, obj: usize, slot: u32) -> (r: JSValue)
    requires
        rt.heap.wf(),
        object_at(rt.heap@, obj) is Some,
    ensures
        r.bits == slot_value(rt.heap@, rt.hot.overflow@.fields, obj, slot as int),
{
    assert(rt.heap@.contains_key(obj));
    match rt.heap.object(obj) {
        None => JSValue::undefined(),
        Some(o) => {
            if slot < INLINE_SLOT_FLOOR || slot < o.header.field_count {
                return JSValue::from_bits(o.fields[slot as usize]);
            }
            match overflow_get(&rt.hot.overflow, obj, slot as usize) {
                Some(bits) => JSValue::from_bits(bits),
                None => JSValue::undefined(),
            }
        },
    }
}

/// Does a read by name stamp the object? It does where a plain object without a
/// stamp has the key.
pub open spec fn found_key_stamps(cells: Cells, obj: usize, name: Seq<u8>) -> bool {
    own_keys(cells, obj).contains(name) && wants_stamp(object_at(cells, obj)->0.header)
}

/// What a read of an own property gives.
pub open spec fn property_or_undefined(w: World, obj: usize, name: Seq<u8>) -> u64 {
    match w.property(obj, name) {
        Some(bits) => bits,
        None => TAG_UNDEFINED,
    }
}

/// Reads an own property of an object; undefined if it has none. A plain object
/// whose key is found carries the stamp of its shape afterwards, unless ids are
/// used up.
pub fn js_object_get_field_by_name(
    rt: &mut ObjectRuntime,
    ids: &mut ShapeIds,
    obj: usize,
    key: usize,
) -> (r: JSValue)
    requires
        old(rt).wf(),
        old(rt).draws_from(*old(ids)),
        object_at(old(rt).heap@, obj) is Some,
        string_at(old(rt).heap@, key) is Some,
    ensures
        final(rt).wf(),
        final(rt).heap.frontier() == old(rt).heap.frontier(),
        *final(rt) == (ObjectRuntime {
            heap: final(rt).heap,
            shapes: final(rt).shapes,
            ..*old(rt)
        }),
        drew(old(rt).shapes@, old(ids).next, final(rt).shapes@, final(ids).next),
        same_properties(old(rt).world(), final(rt).world()),
        kept(old(rt).heap@, final(rt).heap@),
        r.bits == property_or_undefined(
            old(rt).world(),
            obj,
            string_at(old(rt).heap@, key)->0,
        ),
        ({
            let name = string_at(old(rt).heap@, key)->0;
            let was = object_at(old(rt).heap@, obj)->0.header;
            let id = final(rt).shapes@[was.keys_array].shape_id;
            let stamps = found_key_stamps(old(rt).heap@, obj, name);
            &&& final(rt).heap@ == with_header(
                old(rt).heap@,
                obj,
                if stamps && id != 0 {
                    ObjectHeader { parent_class_id: id, ..was }
                } else {
                    was
                },
            )
            &&& stamps ==> final(rt).shapes@.contains_key(was.keys_array)
            &&& {
                let keys = was.keys_array;
                let at = key_at(own_keys(old(rt).heap@, obj), name);
                let found = searched(
                    old(rt).shapes@,
                    old(ids).next,
                    old(rt).heap@,
                    keys,
                    name,
                    at,
                );
                let next = searched_next(old(rt).shapes@, old(ids).next, old(rt).heap@, keys);
                if keys == 0 {
                    &&& final(rt).shapes@ == old(rt).shapes@
                    &&& final(ids).next == old(ids).next
                } else if stamps {
                    &&& final(rt).shapes@ == ensured(found, next, keys)
                    &&& final(ids).next == ensured_next(found, next, keys)
                } else {
                    &&& final(rt).shapes@ == found
                    &&& final(ids).next == next
                }
            }
            &&& stamps && old(ids).next < SHAPE_ID_END ==> shape_id(id)
        }),
{
    let ghost w0 = rt.world();
    let ghost name = string_at(w0.cells, key)->0;
    let ghost names = own_keys(w0.cells, obj);
    let header = match rt.heap.object(obj) {
        None => {
            return JSValue::undefined();
        },
        Some(o) => o.header,
    };
    proof {
        lemma_spelled(w0, obj);
        assert(with_header(w0.cells, obj, header) =~= w0.cells);
    }
    if header.keys_array == 0 {
        return JSValue::undefined();
    }
    assert(keys_ok(w0.cells, header.keys_array));
    match find_slot(rt, ids, header.keys_array, key) {
        None => {
            proof {
                if names.contains(name) {
                    let i = choose|i: int| 0 <= i < names.len() && names[i] == name;
                    let bits = elements(w0.cells, header.keys_array)[i];
                    assert(string_at(w0.cells, payload(bits)) == Some(names[i]));
                }
            }
            JSValue::undefined()
        },
        Some(slot) => {
            proof {
                assert(names[slot as int] == name);
                lemma_only_position(names, slot as int);
            }
            let value = load_slot(rt, obj, slot);
            if header.class_id == 0 && !is_shape_id(header.parent_class_id) {
                stamp_object(rt, ids, obj);
            }
            value
        },
    }
}

/// Does one value refer to an object with an own property that another spells?
pub open spec fn has_own_property(cells: Cells, obj: u64, key: u64) -> bool {
    &&& tagged(obj, POINTER_TAG)
    &&& object_at(cells, payload(obj)) is Some
    &&& key_bytes(cells, key) is Some
    &&& own_keys(cells, payload(obj)).contains(key_bytes(cells, key)->0)
}

/// Has the object that a value refers to an own property with the key that
/// another value spells? Short strings spell keys like heap strings.
pub fn js_object_has_property(rt: &ObjectRuntime, obj: JSValue, key: JSValue) -> (r: JSValue)
    requires
        rt.wf(),
    ensures
        r.bits == (if has_own_property(rt.heap@, obj.bits, key.bits) {
            TAG_TRUE
        } else {
            TAG_FALSE
        }),
{
    let no = JSValue::from_bits(TAG_FALSE);
    if !obj.is_pointer() {
        return no;
    }
    let addr = obj.as_pointer();
    let keys = match rt.heap.object(addr) {
        None => {
            return no;
        },
        Some(o) => o.header.keys_array,
    };
    let mut scratch: Vec<u8> = Vec::new();
    let name = match js_string_key_bytes(&rt.heap, key, &mut scratch) {
        None => {
            return no;
        },
        Some(b) => b,
    };
    let ghost names = own_keys(rt.heap@, addr);
    let ghost list = elements(rt.heap@, keys);
    proof {
        lemma_spelled(rt.world(), addr);
        if keys != 0 {
            assert(keys_ok(rt.heap@, keys));
        }
    }
    if let Some(a) = rt.heap.array(keys) {
        let mut i: u32 = 0;
        while i < a.length
            invariant
                i <= a.length <= a.slots@.len(),
                list == a.slots@.take(a.length as int),
                names.len() == list.len(),
                forall|j: int|
                    0 <= j < list.len() ==> key_bytes(rt.heap@, list[j]) == Some(
                        #[trigger] names[j],
                    ),
                forall|j: int| 0 <= j < i ==> #[trigger] names[j] != name@,
                key_bytes(rt.heap@, key.bits) == Some(name@),
                tagged(obj.bits, POINTER_TAG),
                addr == payload(obj.bits),
                object_at(rt.heap@, addr) is Some,
                names == own_keys(rt.heap@, addr),
            decreases a.length - i,
        {
            let mut unpacked: Vec<u8> = Vec::new();
            let stored = JSValue::from_bits(a.slots[i as usize]);
            assert(list[i as int] == stored.bits);
            assert(key_bytes(rt.heap@, list[i as int]) == Some(names[i as int]));
            if let Some(b) = js_string_key_bytes(&rt.heap, stored, &mut unpacked) {
                if bytes_equal(b, name) {
                    assert(names.contains(name@));
                    return JSValue::from_bits(TAG_TRUE);
                }
            }
            i += 1;
        }
    }
    no
}

/// The token of an object with this header.
pub open spec fn shape_token(header: ObjectHeader) -> usize {
    if header.class_id == 0 && shape_id(header.parent_class_id) {
        header.parent_class_id as usize
    } else {
        header.keys_array
    }
}

/// The token of the shape of an object. That of a plain object with keys is its
/// stamp, which it gets now if it has none, so that objects of one shape never
/// have different tokens; other objects have their keys array.
pub fn test_object_shape_token(
    rt: &mut ObjectRuntime,
    ids: &mut ShapeIds,
    obj: usize,
) -> (r: usize)
    requires
        old(rt).wf(),
        old(rt).draws_from(*old(ids)),
        object_at(old(rt).heap@, obj) is Some,
    ensures
        final(rt).wf(),
        final(rt).heap.frontier() == old(rt).heap.frontier(),
        *final(rt) == (ObjectRuntime {
            heap: final(rt).heap,
            shapes: final(rt).shapes,
            ..*old(rt)
        }),
        drew(old(rt).shapes@, old(ids).next, final(rt).shapes@, final(ids).next),
        same_properties(old(rt).world(), final(rt).world()),
        kept(old(rt).heap@, final(rt).heap@),
        ({
            let was = object_at(old(rt).heap@, obj)->0.header;
            let is = if was.keys_array != 0 {
                read_header(old(rt).shapes@, old(ids).next, was)
            } else {
                was
            };
            &&& final(rt).shapes@ == (if was.keys_array != 0 {
                read_shapes(old(rt).shapes@, old(ids).next, was)
            } else {
                old(rt).shapes@
            })
            &&& final(ids).next == (if was.keys_array != 0 {
                read_next(old(rt).shapes@, old(ids).next, was)
            } else {
                old(ids).next
            })
            &&& final(rt).heap@ == with_header(old(rt).heap@, obj, is)
            &&& r == shape_token(is)
        }),
{
    let header = match rt.heap.object(obj) {
        None => {
            return 0;
        },
        Some(o) => o.header,
    };
    proof {
        assert(with_header(rt.heap@, obj, header) =~= rt.heap@);
    }
    if header.class_id == 0 && header.keys_array != 0 && !is_shape_id(header.parent_class_id) {
        stamp_object(rt, ids, obj);
    }
    match rt.heap.object(obj) {
        None => 0,
        Some(o) => if o.header.class_id == 0 && is_shape_id(o.header.parent_class_id) {
            o.header.parent_class_id as usize
        } else {
            o.header.keys_array
        },
    }
}

// ---------------------------------------------------------------------------
// Laws
// ---------------------------------------------------------------------------
/// An object that was just allocated is an ordinary one of its class, without
/// keys, stamp or metadata, and undefined in every slot.
pub proof fn newborn_objects_are_blank(class_id: u32, field_count: u32, i: int)
    ensures
        ({
            let entry = newborn_object(newborn_header(class_id, field_count));
            let o = entry.cell->Object_0;
            &&& entry.cell is Object
            &&& !entry.gc.shape_shared && !entry.gc.interned && !entry.gc.old_gen
            &&& o.header.object_type == 1
            &&& o.header.class_id == class_id
            &&& o.header.field_count == field_count
            &&& o.header.parent_class_id == 0
            &&& o.header.keys_array == 0
            &&& o.header.meta == 0
            &&& o.fields.len() == (if field_count < 4 {
                4
            } else {
                field_count
            })
            &&& 0 <= i < o.fields.len() ==> o.fields[i] == 0x7FFC_0000_0000_0001
        }),
{
}

/// Writing a property makes it read as written, keeps every other property of
/// the object, in particular its order among the keys, and touches no other
/// object. A new key comes last.
pub proof fn written_properties_read_back(
    before: World,
    after: World,
    obj: usize,
    name: Seq<u8>,
    bits: u64,
    other: usize,
    key: Seq<u8>,
)
    requires
        property_set(before, after, obj, name, bits),
        object_at(before.cells, other) is Some,
    ensures
        ({
            let names = own_keys(before.cells, obj);
            let now = own_keys(after.cells, obj);
            &&& property_or_undefined(after, obj, name) == bits
            &&& key != name ==> property_or_undefined(after, obj, key) == property_or_undefined(
                before,
                obj,
                key,
            )
            &&& other != obj ==> property_or_undefined(after, other, key)
                == property_or_undefined(before, other, key)
            &&& other != obj ==> object_at(after.cells, other) == object_at(before.cells, other)
            &&& now.len() == names.len() || now.len() == names.len() + 1
            &&& now.len() == names.len() <==> names.contains(name)
            &&& now.take(names.len() as int) == names
            &&& !names.contains(name) ==> now.last() == name
        }),
{
    let names = own_keys(before.cells, obj);
    assert(own_keys(after.cells, obj).take(names.len() as int) =~= names);
}

/// A property that an object lacks reads as undefined, and one that it has as its
/// value.
pub proof fn lacking_properties_read_as_undefined(w: World, obj: usize, name: Seq<u8>)
    ensures
        w.property(obj, name) is None ==> property_or_undefined(w, obj, name)
            == 0x7FFC_0000_0000_0001,
        w.property(obj, name) matches Some(bits) ==> property_or_undefined(w, obj, name) == bits,
{
}

/// Of two writes to one property the later one counts, and it adds no key.
pub proof fn the_last_write_counts(
    before: World,
    between: World,
    after: World,
    obj: usize,
    name: Seq<u8>,
    first: u64,
    last: u64,
)
    requires
        property_set(before, between, obj, name, first),
        property_set(between, after, obj, name, last),
    ensures
        property_or_undefined(after, obj, name) == last,
        own_keys(after.cells, obj) == own_keys(between.cells, obj),
{
}

/// `key in obj` is true exactly if the value refers to an object that has a
/// property with the bytes of the key, short or not.
pub proof fn membership_is_having_the_property(w: World, obj: u64, key: u64)
    ensures
        has_own_property(w.cells, obj, key) <==> {
            let addr = (obj & 0x0000_FFFF_FFFF_FFFFu64) as usize;
            &&& obj & 0xFFFF_0000_0000_0000u64 == 0x7FFD_0000_0000_0000
            &&& object_at(w.cells, addr) is Some
            &&& key_bytes(w.cells, key) is Some
            &&& w.property(addr, key_bytes(w.cells, key)->0) is Some
        },
{
}

/// Two plain objects have the same token exactly if they have the same keys
/// array, once both are stamped; and a token is an id or the address of a keys
/// array, which never coincide on this heap.
pub proof fn tokens_stand_for_keys_arrays(shapes: Shapes, a: ObjectHeader, b: ObjectHeader)
    requires
        ids_distinct(shapes),
        stamp_true(shapes, a),
        stamp_true(shapes, b),
        a.keys_array < 0x8000_0000,
        b.keys_array < 0x8000_0000,
    ensures
        shape_token(a) == shape_token(b) ==> a.keys_array == b.keys_array,
        a.class_id == 0 && b.class_id == 0 && a.parent_class_id != 0 && b.parent_class_id != 0
            && a.keys_array == b.keys_array ==> shape_token(a) == shape_token(b),
        a.class_id != 0 ==> shape_token(a) == a.keys_array,
{
}

/// A store into a slot is reported with the object, the number of the slot and
/// what was stored; one on the side as a change of the layout and as a reference
/// from outside the heap.
pub proof fn slot_stores_are_reported(header: ObjectHeader, obj: usize, slot: usize, bits: u64)
    requires
        obj + 32 + 8 * slot <= usize::MAX,
    ensures
        ({
            let events = slot_reports(header, obj, slot, bits);
            if slot < 4 || slot < header.field_count {
                events == seq![
                    GcEvent::SlotStore {
                        owner: obj,
                        slot_addr: (obj + 32 + 8 * slot) as usize,
                        index: slot,
                        bits,
                    },
                ]
            } else {
                events == seq![
                    GcEvent::LayoutNote { owner: obj, index: slot, bits },
                    GcEvent::ExternalSlotBarrier { owner: obj, index: slot, bits },
                ]
            }
        }),
{
}

/// A stored inline slot counts as a field from then on, so that the collector
/// traces it; nothing else of the header changes, and the slot stays inline.
pub proof fn stored_slots_count_as_fields(header: ObjectHeader, slot: int)
    requires
        0 <= slot,
        slot < 4 || slot < header.field_count,
    ensures
        ({
            let after = stored_header(header, slot);
            &&& slot < after.field_count
            &&& after.field_count == header.field_count || after.field_count == slot + 1
            &&& after.field_count >= header.field_count
            &&& after == (ObjectHeader { field_count: after.field_count, ..header })
            &&& alloc_limit(after) == alloc_limit(header)
        }),
{
}

/// Storing a slot changes that slot alone: read back it gives what was stored,
/// and every other slot of every object gives what it gave.
pub proof fn stored_slots_read_back(
    cells: Cells,
    overflow: OverflowView,
    obj: usize,
    slot: int,
    bits: u64,
    other: usize,
    i: int,
)
    requires
        object_at(cells, obj) is Some,
        object_at(cells, other) is Some,
        alloc_limit(object_at(cells, obj)->0.header) <= object_at(cells, obj)->0.fields.len(),
        0 <= slot,
        0 <= i,
        other != obj || i != slot,
    ensures
        ({
            let header = object_at(cells, obj)->0.header;
            let after = stored_cells(cells, obj, slot, bits);
            let side = stored_overflow(overflow, header, obj, slot, bits).fields;
            &&& slot_value(after, side, obj, slot) == bits
            &&& slot_value(after, side, other, i) == slot_value(cells, overflow.fields, other, i)
        }),
{
    let header = object_at(cells, obj)->0.header;
    if slot < alloc_limit(header) {
        stored_slots_count_as_fields(header, slot);
    } else {
        writes_pad_with_undefined(overflow, obj, slot, bits, i);
    }
}

/// A store beyond the inline slots teaches the class of the object a width that
/// covers the slot, if widths of that size are learned; an inline store teaches
/// nothing.
pub proof fn wide_stores_teach_the_class(
    table: LearnedInlineTable,
    header: ObjectHeader,
    slot: int,
)
    requires
        table.wf(),
        0 <= slot < u32::MAX,
    ensures
        ({
            let after = stored_width(table.entries@, header, slot);
            &&& slot < 4 || slot < header.field_count ==> after == table.entries@
            &&& slot >= 4 && slot >= header.field_count && slot < 64 && header.class_id != 0 ==> {
                &&& learned_count(after, header.class_id) > slot
                &&& learned_count(after, header.class_id) == slot + 1 || learned_count(
                    after,
                    header.class_id,
                ) == learned_count(table.entries@, header.class_id)
            }
            &&& slot >= 64 ==> after == table.entries@
        }),
{
}

/// A key that is appended is reported twice: the keys array is stored into the
/// object and into the table of edges.
pub proof fn appended_keys_are_reported(obj: usize, keys: usize)
    requires
        obj + 16 <= usize::MAX,
    ensures
        appended_reports(obj, keys) == seq![
            GcEvent::SlotBarrier { owner: obj, slot_addr: (obj + 16) as usize, bits: keys as u64 },
            GcEvent::RootStore { addr: keys },
        ],
{
}

/// A read by name stamps exactly the plain objects that have the key and carry no
/// stamp yet.
pub proof fn reads_by_name_stamp_what_they_find(w: World, obj: usize, name: Seq<u8>)
    ensures
        found_key_stamps(w.cells, obj, name) <==> {
            let header = object_at(w.cells, obj)->0.header;
            &&& w.property(obj, name) is Some
            &&& header.class_id == 0
            &&& !(0x8000_0000 <= header.parent_class_id <= 0xBFFF_FFFF)
        },
{
}

/// What two objects with the same keys array have to do with each other: both
/// have none, or it is shared and in force.
pub open spec fn share_keys(s: ObjectState, obj: usize, other: usize) -> bool {
    let keys = object_at(s.cells, obj)->0.header.keys_array;
    &&& object_at(s.cells, obj) is Some
    &&& object_at(s.cells, other) is Some
    &&& obj != other
    &&& object_at(s.cells, other)->0.header.keys_array == keys
    &&& keys == 0 || {
        &&& array_at(s.cells, keys) is Some
        &&& array_at(s.cells, keys)->0.forward == 0
        &&& array_at(s.cells, keys)->0.length <= array_at(s.cells, keys)->0.capacity
        &&& array_at(s.cells, keys)->0.slots.len() == array_at(s.cells, keys)->0.capacity
        &&& s.cells[keys].gc.shape_shared
    }
}

proof fn lemma_appended_edge_is_found(s: ObjectState, obj: usize, other: usize, key: usize)
    requires
        s.edges.len() == 16384,
        share_keys(s, obj, other),
        string_at(s.cells, key) is Some,
        key < 0x0001_0000_0000_0000,
        !s.cells.contains_key(0),
        s.next_cell() != 0,
        !s.cells.contains_key(s.next_cell()),
        2 * own_keys(s.cells, obj).len() + 4 <= u32::MAX,
    ensures
        ({
            let after = key_appended(s, obj, key);
            &&& object_at(after.cells, obj) is Some
            &&& object_at(after.cells, obj)->0.header.keys_array == s.next_cell()
            &&& object_at(after.cells, other) == object_at(s.cells, other)
            &&& string_at(after.cells, key) == string_at(s.cells, key)
            &&& after.cells[key].gc == s.cells[key].gc
            &&& edge_from(after, other, key) matches Some((to, _)) && to == s.next_cell()
        }),
{
    let after = key_appended(s, obj, key);
    let header = object_at(s.cells, obj)->0.header;
    let prev = header.keys_array;
    let bits = boxed(STRING_TAG, key);
    let list = elements(s.cells, prev);
    let slot = list.len() as int;
    let keys = s.next_cell();
    string_boxes_round_trip(key);
    assert(own_keys(s.cells, obj).len() == slot);
    assert(extended_addr(s.cells, keys, prev) == keys);
    let a = array_at(after.cells, keys)->0;
    assert(array_at(after.cells, keys) is Some);
    assert(a.length == slot + 1 && a.forward == 0 && a.capacity == 2 * slot + 4);
    assert(a.slots[slot] == bits);
    assert(resolved(after.cells, keys) == keys);
    let dense = dense_slots(after.cells, keys);
    assert(dense.len() == slot + 1 && dense[slot] == bits);
    assert(key_bytes(after.cells, bits) == string_at(after.cells, key));
    assert(0 <= transition_slot(prev, key) < 16384);
}

/// Objects with the same history have the same keys: of two objects that share
/// their keys array, or have none, the second to get a key that is interned gets
/// the array that the first one got with it.
pub proof fn equal_histories_share_keys(s: ObjectState, obj: usize, other: usize, key: usize)
    requires
        s.edges.len() == 16384,
        share_keys(s, obj, other),
        string_at(s.cells, key) is Some,
        s.cells[key].gc.interned,
        key < 0x0001_0000_0000_0000,
        !s.cells.contains_key(0),
        s.next_cell() != 0,
        !s.cells.contains_key(s.next_cell()),
        2 * own_keys(s.cells, obj).len() + 4 <= u32::MAX,
        !own_keys(s.cells, obj).contains(string_at(s.cells, key)->0),
    ensures
        ({
            let once = key_given(s, obj, key);
            let twice = key_given(once, other, key);
            let a = object_at(twice.cells, obj)->0.header;
            let b = object_at(twice.cells, other)->0.header;
            &&& object_at(twice.cells, obj) is Some
            &&& object_at(twice.cells, other) is Some
            &&& a.keys_array == b.keys_array
            &&& twice.next == once.next
            &&& twice.frontier == once.frontier
        }),
{
    let once = key_given(s, obj, key);
    let name = string_at(s.cells, key)->0;
    let header = object_at(s.cells, obj)->0.header;
    if edge_from(s, obj, key) is Some {
        let (to, slot) = edge_from(s, obj, key)->0;
        assert(key_interned(s, key) == s);
        assert(array_at(s.cells, to) is Some);
        assert forall|a: usize| #[trigger] array_at(once.cells, a) == array_at(s.cells, a) by {}
        lemma_same_arrays_resolve(s.cells, once.cells, to);
        assert(string_at(once.cells, key) == string_at(s.cells, key));
        let element = array_get(s.cells, to, slot);
        assert(array_get(once.cells, to, slot) == element);
        assert(string_at(once.cells, payload(element)) == string_at(s.cells, payload(element)));
        assert(edge_from(once, other, key) == Some((to, slot)));
    } else {
        let found = key_searched(s, obj, name);
        assert(key_interned(s, key) == s);
        assert(share_keys(found, obj, other));
        lemma_appended_edge_is_found(found, obj, other, key);
        assert(once == key_appended(found, obj, key));
    }
    assert(once.cells[key].gc.interned);
    assert(key_interned(once, key) == once);
}

} // verus!
