//! What always holds of the heap and the side tables together.

use vstd::prelude::*;

use crate::heap::{
    alloc_limit, array_at, object_at, outgrown, shared, string_at, with_field, with_gc, ArrayView,
    CellView, Cells, EntryView, GcHeader, ObjectHeader, ObjectView,
};
use crate::key_lists::{elements, extended, extended_addr, fresh_array, roomy};
use crate::keys::{
    array_get, array_length, dense_slots, key_bytes, lemma_headers_do_not_matter,
    lemma_same_arrays_resolve, resolved,
};
use crate::object_slots::{rekeyed_header, stamp_stays_true, stamp_true, with_header};
use crate::shape_cache::CachedShape;
use crate::shapes::{ensured, ids_distinct, ids_drawn, ids_stay_sound, keys_grown, Shapes};
use crate::transition::{
    believed_edge, edge_added, edge_shared, shares_eagerly, transition_hit, transition_shared,
    transition_slot, TransitionEntry, TRANSITION_CACHE_SIZE,
};
use crate::value::{payload, tagged, STRING_TAG, TAG_UNDEFINED};

verus! {

/// The parts of the state that depend on one another.
pub struct World {
    pub cells: Cells,
    pub shapes: Shapes,
    pub edges: Seq<TransitionEntry>,
    pub cache: Map<u32, CachedShape>,
    pub overflow: Map<usize, Seq<u64>>,
}

// ---------------------------------------------------------------------------
// What always holds
// ---------------------------------------------------------------------------
/// A keys array that objects may use: in force, within its capacity, every
/// element a heap string and no string twice.
pub open spec fn keys_ok(cells: Cells, keys: usize) -> bool {
    &&& array_at(cells, keys) is Some
    &&& array_at(cells, keys)->0.forward == 0
    &&& array_at(cells, keys)->0.length <= array_at(cells, keys)->0.capacity
    &&& array_at(cells, keys)->0.slots.len() == array_at(cells, keys)->0.capacity
    &&& names_ok(cells, elements(cells, keys))
}

/// All elements are heap strings, no two with the same bytes.
pub open spec fn names_ok(cells: Cells, list: Seq<u64>) -> bool {
    &&& forall|i: int|
        0 <= i < list.len() ==> tagged(#[trigger] list[i], STRING_TAG) && string_at(
            cells,
            payload(list[i]),
        ) is Some
    &&& forall|i: int, j: int|
        0 <= i < j < list.len() ==> string_at(cells, payload(#[trigger] list[i])) != string_at(
            cells,
            payload(#[trigger] list[j]),
        )
}

/// An array that was replaced has no elements left.
pub open spec fn stubs_ok(cells: Cells) -> bool {
    forall|a: usize|
        (#[trigger] array_at(cells, a)) is Some && array_at(cells, a)->0.forward != 0
            ==> array_at(cells, a)->0.length == 0
}

/// Every object has a keys array that can be used, or none.
pub open spec fn objects_ok(cells: Cells) -> bool {
    forall|o: usize|
        (#[trigger] object_at(cells, o)) is Some && object_at(cells, o)->0.header.keys_array != 0
            ==> keys_ok(cells, object_at(cells, o)->0.header.keys_array)
}

/// A keys array that two objects use is marked as shared.
pub open spec fn owners_ok(cells: Cells) -> bool {
    forall|o: usize, p: usize|
        (#[trigger] object_at(cells, o)) is Some && (#[trigger] object_at(cells, p)) is Some && o
            != p && object_at(cells, o)->0.header.keys_array != 0 && object_at(
            cells,
            o,
        )->0.header.keys_array == object_at(cells, p)->0.header.keys_array
            ==> cells[object_at(cells, o)->0.header.keys_array].gc.shape_shared
}

/// The source of an edge: no array, the target itself, an array that nobody
/// uses any more, or a shared one with the keys of the target but the last.
pub open spec fn edge_source_ok(cells: Cells, e: TransitionEntry) -> bool {
    ||| e.prev_keys == e.next_keys
    ||| e.prev_keys == 0 && e.slot_idx == 0
    ||| {
        &&& array_at(cells, e.prev_keys) is Some
        &&& {
            ||| array_at(cells, e.prev_keys)->0.forward != 0
            ||| {
                &&& cells[e.prev_keys].gc.shape_shared
                &&& array_at(cells, e.prev_keys)->0.length == e.slot_idx
                &&& elements(cells, e.prev_keys) == elements(cells, e.next_keys).take(
                    e.slot_idx as int,
                )
            }
        }
    }
}

/// An edge leads to a keys array that has grown at most since.
pub open spec fn edge_ok(cells: Cells, e: TransitionEntry) -> bool {
    &&& array_at(cells, e.next_keys) is Some
    &&& array_at(cells, e.next_keys)->0.forward == 0 ==> {
        &&& keys_ok(cells, e.next_keys)
        &&& e.slot_idx < array_at(cells, e.next_keys)->0.length
        &&& edge_source_ok(cells, e)
    }
    &&& e.target_len != 0 ==> cells[e.next_keys].gc.shape_shared
}

pub open spec fn edges_ok(cells: Cells, edges: Seq<TransitionEntry>) -> bool {
    forall|i: int|
        0 <= i < edges.len() && (#[trigger] edges[i]).next_keys != 0 ==> edge_ok(cells, edges[i])
}

/// Cached keys arrays are shared and can be used.
pub open spec fn cache_ok(cells: Cells, cache: Map<u32, CachedShape>) -> bool {
    forall|id: u32| #[trigger]
        cache.contains_key(id) && cache[id].keys_array != 0 ==> keys_ok(
            cells,
            cache[id].keys_array,
        ) && cells[cache[id].keys_array].gc.shape_shared
}

/// Only objects have fields on the side.
pub open spec fn overflow_ok(cells: Cells, overflow: Map<usize, Seq<u64>>) -> bool {
    forall|o: usize| #[trigger] overflow.contains_key(o) ==> object_at(cells, o) is Some
}

/// All stamps are true.
pub open spec fn stamps_ok(cells: Cells, shapes: Shapes) -> bool {
    forall|o: usize|
        (#[trigger] object_at(cells, o)) is Some ==> stamp_true(
            shapes,
            object_at(cells, o)->0.header,
        )
}

/// Records are those of arrays, and none covers more keys than its array has.
pub open spec fn records_ok(cells: Cells, shapes: Shapes) -> bool {
    forall|k: usize| #[trigger]
        shapes.contains_key(k) ==> array_at(cells, k) is Some && shapes[k].indexed_len
            <= array_length(cells, k)
}

/// An id that is cached with a keys array is the one in its record.
pub open spec fn cached_ids_ok(shapes: Shapes, cache: Map<u32, CachedShape>) -> bool {
    forall|id: u32| #[trigger]
        cache.contains_key(id) && cache[id].runtime_shape_id != 0 ==> {
            &&& cache[id].keys_array != 0
            &&& shapes.contains_key(cache[id].keys_array)
            &&& shapes[cache[id].keys_array].shape_id == cache[id].runtime_shape_id
        }
}

impl World {
    pub open spec fn ok(self) -> bool {
        &&& ids_distinct(self.shapes)
        &&& !self.cells.contains_key(0)
        &&& self.edges.len() == TRANSITION_CACHE_SIZE
        &&& stubs_ok(self.cells)
        &&& objects_ok(self.cells)
        &&& owners_ok(self.cells)
        &&& edges_ok(self.cells, self.edges)
        &&& cache_ok(self.cells, self.cache)
        &&& overflow_ok(self.cells, self.overflow)
        &&& stamps_ok(self.cells, self.shapes)
        &&& records_ok(self.cells, self.shapes)
        &&& cached_ids_ok(self.shapes, self.cache)
    }
}

// ---------------------------------------------------------------------------
// What objects hold
// ---------------------------------------------------------------------------
/// The keys of an object in their order.
pub open spec fn own_keys(cells: Cells, obj: usize) -> Seq<Seq<u8>> {
    elements(cells, object_at(cells, obj)->0.header.keys_array).map_values(
        |bits: u64| key_bytes(cells, bits)->0,
    )
}

/// The value in a slot of an object, inline or on the side.
pub open spec fn slot_value(
    cells: Cells,
    overflow: Map<usize, Seq<u64>>,
    obj: usize,
    slot: int,
) -> u64 {
    let o = object_at(cells, obj)->0;
    if slot < alloc_limit(o.header) {
        o.fields[slot]
    } else if overflow.contains_key(obj) && slot < overflow[obj].len() {
        overflow[obj][slot]
    } else {
        TAG_UNDEFINED
    }
}

impl World {
    /// The value of an own property; `None` without such a property.
    pub open spec fn property(self, obj: usize, key: Seq<u8>) -> Option<u64> {
        if own_keys(self.cells, obj).contains(key) {
            Some(
                slot_value(
                    self.cells,
                    self.overflow,
                    obj,
                    own_keys(self.cells, obj).index_of(key),
                ),
            )
        } else {
            None
        }
    }
}

// ---------------------------------------------------------------------------
// What keeps it so
// ---------------------------------------------------------------------------
/// Where arrays and strings are the same and sharing is not undone, keys arrays
/// stay usable and edges stay sound.
proof fn lemma_same_lists(before: Cells, after: Cells)
    requires
        forall|a: usize| #[trigger] array_at(after, a) == array_at(before, a),
        forall|a: usize| #[trigger] string_at(after, a) == string_at(before, a),
        forall|a: usize|
            (#[trigger] array_at(before, a)) is Some && before[a].gc.shape_shared
                ==> after[a].gc.shape_shared,
    ensures
        forall|k: usize| #[trigger] elements(after, k) == elements(before, k),
        forall|k: usize| #[trigger] keys_ok(before, k) ==> keys_ok(after, k),
        forall|k: usize| #[trigger] array_length(after, k) == array_length(before, k),
        forall|b: u64| #[trigger] key_bytes(after, b) == key_bytes(before, b),
        forall|e: TransitionEntry| #[trigger] edge_ok(before, e) ==> edge_ok(after, e),
        stubs_ok(before) ==> stubs_ok(after),
{
    assert forall|k: usize| #[trigger] elements(after, k) == elements(before, k) by {}
    assert forall|k: usize| #[trigger] array_length(after, k) == array_length(before, k) by {
        lemma_same_arrays_resolve(before, after, k);
    }
    assert forall|e: TransitionEntry| #[trigger] edge_ok(before, e) implies edge_ok(after, e) by {
        assert(keys_ok(before, e.next_keys) ==> keys_ok(after, e.next_keys));
    }
}

/// Setting marks in the collector's headers.
pub proof fn lemma_marked(w: World, at: usize, gc: GcHeader)
    requires
        w.ok(),
        w.cells.contains_key(at),
        w.cells[at].gc.shape_shared ==> gc.shape_shared,
    ensures
        (World { cells: with_gc(w.cells, at, gc), ..w }).ok(),
        forall|o: usize| #[trigger]
            object_at(with_gc(w.cells, at, gc), o) == object_at(w.cells, o),
        forall|o: usize| #[trigger] own_keys(with_gc(w.cells, at, gc), o) == own_keys(w.cells, o),
        forall|k: usize| #[trigger] elements(with_gc(w.cells, at, gc), k) == elements(w.cells, k),
{
    let after = with_gc(w.cells, at, gc);
    assert forall|o: usize| #[trigger] object_at(after, o) == object_at(w.cells, o) by {}
    lemma_headers_do_not_matter(w.cells, at, gc);
    lemma_same_lists(w.cells, after);
    assert forall|o: usize| #[trigger] own_keys(after, o) == own_keys(w.cells, o) by {
        assert(own_keys(after, o) =~= own_keys(w.cells, o));
    }
}

/// May the object at `obj` have this keys array? It must be usable, and shared
/// if another object has it.
pub open spec fn may_have_keys(cells: Cells, obj: usize, keys: usize) -> bool {
    keys != 0 ==> {
        &&& keys_ok(cells, keys)
        &&& cells[keys].gc.shape_shared || forall|o: usize|
            (#[trigger] object_at(cells, o)) is Some && o != obj ==> object_at(
                cells,
                o,
            )->0.header.keys_array != keys
    }
}

/// Changing the header of an object.
pub proof fn lemma_headed(w: World, obj: usize, header: ObjectHeader)
    requires
        w.ok(),
        object_at(w.cells, obj) is Some,
        may_have_keys(w.cells, obj, header.keys_array),
        stamp_true(w.shapes, header),
    ensures
        (World { cells: with_header(w.cells, obj, header), ..w }).ok(),
        forall|k: usize| #[trigger]
            elements(with_header(w.cells, obj, header), k) == elements(w.cells, k),
        forall|o: usize| #[trigger]
            object_at(with_header(w.cells, obj, header), o) == (if o == obj {
                Some(ObjectView { header, ..object_at(w.cells, obj)->0 })
            } else {
                object_at(w.cells, o)
            }),
        forall|b: u64| #[trigger]
            key_bytes(with_header(w.cells, obj, header), b) == key_bytes(w.cells, b),
{
    let after = with_header(w.cells, obj, header);
    assert forall|a: usize| #[trigger] array_at(after, a) == array_at(w.cells, a) by {}
    assert forall|a: usize| #[trigger] string_at(after, a) == string_at(w.cells, a) by {}
    assert forall|o: usize| #[trigger] object_at(after, o) == (if o == obj {
        Some(ObjectView { header, ..object_at(w.cells, obj)->0 })
    } else {
        object_at(w.cells, o)
    }) by {}
    lemma_same_lists(w.cells, after);
}

/// Writing an inline slot.
pub proof fn lemma_fielded(w: World, obj: usize, index: int, bits: u64)
    requires
        w.ok(),
        object_at(w.cells, obj) is Some,
    ensures
        (World { cells: with_field(w.cells, obj, index, bits), ..w }).ok(),
        forall|o: usize| #[trigger]
            own_keys(with_field(w.cells, obj, index, bits), o) == own_keys(w.cells, o),
        forall|o: usize| #[trigger]
            object_at(with_field(w.cells, obj, index, bits), o) == (if o == obj {
                Some(
                    ObjectView {
                        fields: object_at(w.cells, obj)->0.fields.update(index, bits),
                        ..object_at(w.cells, obj)->0
                    },
                )
            } else {
                object_at(w.cells, o)
            }),
{
    let after = with_field(w.cells, obj, index, bits);
    let object = object_at(w.cells, obj)->0;
    assert forall|a: usize| #[trigger] array_at(after, a) == array_at(w.cells, a) by {}
    assert forall|a: usize| #[trigger] string_at(after, a) == string_at(w.cells, a) by {}
    assert forall|o: usize| #[trigger] object_at(after, o) == (if o == obj {
        Some(ObjectView { fields: object.fields.update(index, bits), ..object })
    } else {
        object_at(w.cells, o)
    }) by {}
    lemma_same_lists(w.cells, after);
    assert forall|o: usize| #[trigger] own_keys(after, o) == own_keys(w.cells, o) by {
        assert(own_keys(after, o) =~= own_keys(w.cells, o));
    }
}

/// Making and completing records.
pub proof fn lemma_recorded(w: World, shapes: Shapes)
    requires
        w.ok(),
        ids_distinct(shapes),
        records_ok(w.cells, shapes),
        forall|k: usize| #[trigger]
            w.shapes.contains_key(k) ==> shapes.contains_key(k) && shapes[k].shape_id
                == w.shapes[k].shape_id,
    ensures
        (World { shapes, ..w }).ok(),
{
}

/// The array that a name is appended to as the last element.
pub proof fn lemma_names_pushed(cells: Cells, list: Seq<u64>, bits: u64)
    requires
        names_ok(cells, list),
        tagged(bits, STRING_TAG),
        string_at(cells, payload(bits)) is Some,
        forall|i: int|
            0 <= i < list.len() ==> string_at(cells, payload(#[trigger] list[i])) != string_at(
                cells,
                payload(bits),
            ),
    ensures
        names_ok(cells, list.push(bits)),
{
}

/// A believed edge leads to an array that may be adopted, with the keys of the
/// object and the new one last; where source and target are the same array, the
/// object has the key already.
pub proof fn lemma_hit(w: World, obj: usize, key: usize)
    requires
        w.ok(),
        object_at(w.cells, obj) is Some,
        string_at(w.cells, key) is Some,
        transition_hit(
            w.edges,
            w.cells,
            object_at(w.cells, obj)->0.header.keys_array,
            key,
        ) is Some,
    ensures
        ({
            let prev = object_at(w.cells, obj)->0.header.keys_array;
            let (next, slot) = transition_hit(w.edges, w.cells, prev, key)->0;
            let after = transition_shared(w.edges, w.cells, prev, key);
            let list = elements(w.cells, next);
            &&& (World { cells: after, ..w }).ok()
            &&& forall|k: usize| #[trigger] elements(after, k) == elements(w.cells, k)
            &&& forall|o: usize| #[trigger] object_at(after, o) == object_at(w.cells, o)
            &&& forall|b: u64| #[trigger] key_bytes(after, b) == key_bytes(w.cells, b)
            &&& next != 0
            &&& may_have_keys(after, obj, next)
            &&& list.len() == slot + 1
            &&& key_bytes(w.cells, list[slot as int]) == string_at(w.cells, key)
            &&& next == prev || elements(w.cells, prev) == list.drop_last()
        }),
{
    let prev = object_at(w.cells, obj)->0.header.keys_array;
    let e = w.edges[transition_slot(prev, key)];
    let after = transition_shared(w.edges, w.cells, prev, key);
    assert(0 <= transition_slot(prev, key) < w.edges.len());
    assert(edge_ok(w.cells, e));
    let next = e.next_keys;
    let n = array_at(w.cells, next)->0;
    let list = elements(w.cells, next);
    assert(n.forward == 0);
    assert(resolved(w.cells, next) == next);
    assert(dense_slots(w.cells, next) =~= list);
    assert(array_get(w.cells, next, e.slot_idx) == list[e.slot_idx as int]);
    if e.target_len != e.slot_idx + 1 {
        lemma_marked(w, next, GcHeader { shape_shared: true, ..w.cells[next].gc });
        lemma_headers_do_not_matter(
            w.cells,
            next,
            GcHeader { shape_shared: true, ..w.cells[next].gc },
        );
        lemma_same_lists(w.cells, after);
    }
    assert(keys_ok(after, next));
    if next != prev {
        if prev == 0 {
            assert(elements(w.cells, prev) =~= list.drop_last());
        } else {
            assert(keys_ok(w.cells, prev));
            assert(elements(w.cells, prev) =~= list.drop_last());
        }
    }
}

/// Adding an edge to an array that the object has now.
pub proof fn lemma_edge_added(w: World, prev: usize, key: usize, next: usize, slot: u32)
    requires
        w.ok(),
        next != 0,
        keys_ok(w.cells, next),
        array_at(w.cells, next)->0.length == slot + 1,
        edge_source_ok(
            w.cells,
            TransitionEntry {
                prev_keys: prev,
                key_ptr: key,
                next_keys: next,
                slot_idx: slot,
                target_len: 0,
            },
        ),
    ensures
        (World {
            cells: edge_shared(w.cells, next, slot),
            edges: edge_added(w.edges, w.cells, prev, key, next, slot),
            ..w
        }).ok(),
        forall|k: usize| #[trigger]
            elements(edge_shared(w.cells, next, slot), k) == elements(w.cells, k),
        forall|o: usize| #[trigger]
            object_at(edge_shared(w.cells, next, slot), o) == object_at(w.cells, o),
        forall|b: u64| #[trigger]
            key_bytes(edge_shared(w.cells, next, slot), b) == key_bytes(w.cells, b),
{
    let after = edge_shared(w.cells, next, slot);
    let edges = edge_added(w.edges, w.cells, prev, key, next, slot);
    let at = transition_slot(prev, key);
    let fresh = edges[at];
    assert(0 <= at < edges.len());
    if shares_eagerly(w.cells, next, slot) {
        let gc = GcHeader { shape_shared: true, ..w.cells[next].gc };
        lemma_marked(w, next, gc);
        lemma_headers_do_not_matter(w.cells, next, gc);
        lemma_same_lists(w.cells, after);
    }
    assert(edge_ok(after, fresh));
    assert forall|i: int| 0 <= i < edges.len() && (#[trigger] edges[i]).next_keys
        != 0 implies edge_ok(after, edges[i]) by {
        if i != at {
            assert(edges[i] == w.edges[i]);
        }
    }
}

/// What appending `bits` to the keys array of `obj` asks for: a name that the
/// object lacks, and room at `fresh`.
pub open spec fn may_extend(w: World, obj: usize, bits: u64, fresh: usize) -> bool {
    let prev = object_at(w.cells, obj)->0.header.keys_array;
    let list = elements(w.cells, prev);
    &&& object_at(w.cells, obj) is Some
    &&& !w.cells.contains_key(fresh)
    &&& prev < fresh
    &&& roomy(list.len() as int) <= u32::MAX
    &&& tagged(bits, STRING_TAG)
    &&& string_at(w.cells, payload(bits)) is Some
    &&& forall|i: int|
        0 <= i < list.len() ==> string_at(w.cells, payload(#[trigger] list[i])) != string_at(
            w.cells,
            payload(bits),
        )
}

/// The state after `bits` was appended to the keys array of `obj`.
pub open spec fn extended_world(w: World, obj: usize, bits: u64, fresh: usize) -> World {
    let header = object_at(w.cells, obj)->0.header;
    let prev = header.keys_array;
    let new = extended_addr(w.cells, fresh, prev);
    World {
        cells: with_header(
            extended(w.cells, fresh, prev, bits),
            obj,
            rekeyed_header(header, new),
        ),
        shapes: if prev != 0 && !w.cells[prev].gc.shape_shared {
            keys_grown(w.shapes, prev, new)
        } else {
            w.shapes
        },
        ..w
    }
}

/// What an append does to each cell.
proof fn lemma_extended_cells(w: World, obj: usize, bits: u64, fresh: usize)
    requires
        w.ok(),
        may_extend(w, obj, bits, fresh),
    ensures
        ({
            let header = object_at(w.cells, obj)->0.header;
            let prev = header.keys_array;
            let new = extended_addr(w.cells, fresh, prev);
            let list = elements(w.cells, prev);
            let after = extended_world(w, obj, bits, fresh).cells;
            &&& new != 0
            &&& forall|a: usize| #[trigger] string_at(after, a) == string_at(w.cells, a)
            &&& forall|o: usize| #[trigger]
                object_at(after, o) == (if o == obj {
                    Some(
                        ObjectView {
                            header: rekeyed_header(header, new),
                            ..object_at(w.cells, obj)->0
                        },
                    )
                } else {
                    object_at(w.cells, o)
                })
            &&& forall|a: usize|
                a != prev && a != new ==> #[trigger] array_at(after, a) == array_at(w.cells, a)
            &&& forall|a: usize|
                (#[trigger] array_at(w.cells, a)) is Some ==> after[a].gc == w.cells[a].gc
            &&& array_at(after, new) is Some
            &&& array_at(after, new)->0.forward == 0
            &&& array_at(after, new)->0.length == list.len() + 1
            &&& array_at(after, new)->0.length <= array_at(after, new)->0.capacity
            &&& array_at(after, new)->0.slots.len() == array_at(after, new)->0.capacity
            &&& elements(after, new) == list.push(bits)
            &&& new != prev && prev != 0 ==> if w.cells[prev].gc.shape_shared {
                array_at(after, prev) == array_at(w.cells, prev)
            } else {
                array_at(after, prev) == Some(outgrown(new))
            }
            &&& new == prev ==> !w.cells[prev].gc.shape_shared
            &&& new != prev ==> new == fresh
        }),
{
    let header = object_at(w.cells, obj)->0.header;
    let prev = header.keys_array;
    let new = extended_addr(w.cells, fresh, prev);
    let list = elements(w.cells, prev);
    let after = extended_world(w, obj, bits, fresh).cells;
    if prev != 0 {
        assert(keys_ok(w.cells, prev));
    }
    assert(w.cells.contains_key(obj));
    assert(obj != prev && obj != new);
    assert(elements(after, new) =~= list.push(bits));
    assert forall|o: usize| #[trigger] object_at(after, o) == (if o == obj {
        Some(
            ObjectView { header: rekeyed_header(header, new), ..object_at(w.cells, obj)->0 },
        )
    } else {
        object_at(w.cells, o)
    }) by {}
}

/// No array gets shorter by an append, however many replacements lead to it.
proof fn lemma_extended_lengths(w: World, obj: usize, bits: u64, fresh: usize, k: usize)
    requires
        w.ok(),
        may_extend(w, obj, bits, fresh),
    ensures
        array_length(w.cells, k) <= array_length(
            extended_world(w, obj, bits, fresh).cells,
            k,
        ),
    decreases usize::MAX - k,
{
    lemma_extended_cells(w, obj, bits, fresh);
    let prev = object_at(w.cells, obj)->0.header.keys_array;
    let new = extended_addr(w.cells, fresh, prev);
    let after = extended_world(w, obj, bits, fresh).cells;
    if prev != 0 {
        assert(keys_ok(w.cells, prev));
    }
    assert(array_at(w.cells, 0) is None);
    if let Some(a) = array_at(w.cells, k) {
        if a.forward != 0 {
            assert(k != prev && k != new);
            if k < a.forward {
                lemma_extended_lengths(w, obj, bits, fresh, a.forward);
            }
        } else if k == prev && new != prev && !w.cells[prev].gc.shape_shared {
            assert(resolved(after, new) == new);
            assert(resolved(after, prev) == new);
        } else {
            assert(resolved(w.cells, k) == k);
            assert(resolved(after, k) == k);
        }
    }
}

/// Appending a key to the keys array of an object.
pub proof fn lemma_extended(w: World, obj: usize, bits: u64, fresh: usize)
    requires
        w.ok(),
        may_extend(w, obj, bits, fresh),
    ensures
        ({
            let header = object_at(w.cells, obj)->0.header;
            let prev = header.keys_array;
            let new = extended_addr(w.cells, fresh, prev);
            let list = elements(w.cells, prev);
            let after = extended_world(w, obj, bits, fresh);
            &&& after.ok()
            &&& new != 0
            &&& keys_ok(after.cells, new)
            &&& elements(after.cells, new) == list.push(bits)
            &&& forall|o: usize| #[trigger]
                object_at(after.cells, o) == (if o == obj {
                    Some(
                        ObjectView {
                            header: rekeyed_header(header, new),
                            ..object_at(w.cells, obj)->0
                        },
                    )
                } else {
                    object_at(w.cells, o)
                })
            &&& forall|o: usize|
                (#[trigger] object_at(w.cells, o)) is Some && o != obj ==> elements(
                    after.cells,
                    object_at(w.cells, o)->0.header.keys_array,
                ) == elements(w.cells, object_at(w.cells, o)->0.header.keys_array)
            &&& forall|a: usize| #[trigger] string_at(after.cells, a) == string_at(w.cells, a)
            &&& edge_source_ok(
                after.cells,
                TransitionEntry {
                    prev_keys: prev,
                    key_ptr: payload(bits),
                    next_keys: new,
                    slot_idx: list.len() as u32,
                    target_len: 0,
                },
            )
        }),
{
    lemma_extended_cells(w, obj, bits, fresh);
    let header = object_at(w.cells, obj)->0.header;
    let prev = header.keys_array;
    let new = extended_addr(w.cells, fresh, prev);
    let list = elements(w.cells, prev);
    let after = extended_world(w, obj, bits, fresh);
    if prev != 0 {
        assert(keys_ok(w.cells, prev));
    }
    lemma_names_pushed(w.cells, list, bits);
    assert(names_ok(after.cells, list.push(bits)));
    assert(keys_ok(after.cells, new));
    // Arrays that objects use stay as they are, but for the one of `obj`.
    assert forall|k: usize|
        #[trigger] keys_ok(w.cells, k) && k != prev implies keys_ok(after.cells, k) && elements(
        after.cells,
        k,
    ) == elements(w.cells, k) by {
        assert(k != new);
        assert(array_at(after.cells, k) == array_at(w.cells, k));
    }
    assert forall|o: usize|
        (#[trigger] object_at(w.cells, o)) is Some && o != obj && object_at(
            w.cells,
            o,
        )->0.header.keys_array == prev && prev != 0 implies w.cells[prev].gc.shape_shared by {
        assert(object_at(w.cells, obj) is Some);
    }
    if prev != 0 && w.cells[prev].gc.shape_shared {
        assert(keys_ok(after.cells, prev));
        assert(elements(after.cells, prev) == list);
    }
    assert(list.push(bits).take(list.len() as int) =~= list);
    // Edges.
    assert forall|e: TransitionEntry| #[trigger] edge_ok(w.cells, e) implies edge_ok(
        after.cells,
        e,
    ) by {
        assert(e.next_keys != fresh);
        assert(e.next_keys == prev || array_at(after.cells, e.next_keys) == array_at(
            w.cells,
            e.next_keys,
        ));
        if array_at(after.cells, e.next_keys)->0.forward == 0 {
            assert(keys_ok(w.cells, e.next_keys));
            if e.next_keys == prev {
                assert(elements(after.cells, e.next_keys).take(e.slot_idx as int) =~= elements(
                    w.cells,
                    e.next_keys,
                ).take(e.slot_idx as int));
            }
            assert(edge_source_ok(w.cells, e));
            assert(edge_source_ok(after.cells, e));
        }
    }
    // Stamps.
    stamp_stays_true(w.shapes, header, new);
    assert forall|o: usize| (#[trigger] object_at(after.cells, o)) is Some implies stamp_true(
        after.shapes,
        object_at(after.cells, o)->0.header,
    ) by {
        if o != obj {
            assert(object_at(w.cells, o) is Some);
        }
    }
    // Records.
    assert(ids_distinct(after.shapes));
    assert forall|k: usize| #[trigger] after.shapes.contains_key(k) implies array_at(
        after.cells,
        k,
    ) is Some && after.shapes[k].indexed_len <= array_length(after.cells, k) by {
        lemma_extended_lengths(w, obj, bits, fresh, k);
        if k == new && new != prev && prev != 0 && w.shapes.contains_key(prev) {
            lemma_extended_lengths(w, obj, bits, fresh, prev);
            assert(resolved(w.cells, prev) == prev);
            assert(resolved(after.cells, new) == new);
        }
    }
}

/// Allocating a string or an object, whose keys array it may have and whose
/// stamp is true.
pub proof fn lemma_allocated(w: World, at: usize, entry: EntryView)
    requires
        w.ok(),
        at != 0,
        !w.cells.contains_key(at),
        entry.cell is String || entry.cell is Object,
        entry.cell matches CellView::Object(o) ==> may_have_keys(
            w.cells,
            at,
            o.header.keys_array,
        ) && stamp_true(w.shapes, o.header),
    ensures
        (World { cells: w.cells.insert(at, entry), ..w }).ok(),
        forall|o: usize|
            o != at ==> #[trigger] object_at(w.cells.insert(at, entry), o) == object_at(
                w.cells,
                o,
            ),
        forall|k: usize| #[trigger]
            elements(w.cells.insert(at, entry), k) == elements(w.cells, k),
        forall|o: usize|
            o != at && (#[trigger] object_at(w.cells, o)) is Some ==> own_keys(
                w.cells.insert(at, entry),
                o,
            ) == own_keys(w.cells, o),
{
    let after = w.cells.insert(at, entry);
    assert forall|a: usize| #[trigger] array_at(after, a) == array_at(w.cells, a) by {}
    assert forall|a: usize| #[trigger] resolved(after, a) == resolved(w.cells, a) by {
        lemma_same_arrays_resolve(w.cells, after, a);
    }
    assert forall|k: usize| #[trigger] keys_ok(w.cells, k) implies keys_ok(after, k) && elements(
        after,
        k,
    ) == elements(w.cells, k) by {
        let list = elements(w.cells, k);
        assert forall|i: int| 0 <= i < list.len() implies string_at(
            after,
            payload(#[trigger] list[i]),
        ) == string_at(w.cells, payload(list[i])) by {}
    }
    assert forall|e: TransitionEntry| #[trigger] edge_ok(w.cells, e) implies edge_ok(
        after,
        e,
    ) by {}
    assert forall|o: usize|
        o != at implies #[trigger] object_at(after, o) == object_at(w.cells, o) by {}
    assert forall|o: usize|
        (#[trigger] object_at(after, o)) is Some && object_at(after, o)->0.header.keys_array
            != 0 implies keys_ok(after, object_at(after, o)->0.header.keys_array) by {
        assert(keys_ok(w.cells, object_at(after, o)->0.header.keys_array));
    }
    assert forall|o: usize|
        o != at && (#[trigger] object_at(w.cells, o)) is Some implies own_keys(after, o)
        == own_keys(w.cells, o) by {
        let keys = object_at(w.cells, o)->0.header.keys_array;
        if keys != 0 {
            assert(keys_ok(w.cells, keys));
        }
        assert(own_keys(after, o) =~= own_keys(w.cells, o));
    }
}

/// No lookup shares a target that it does not give, for edges lead to arrays
/// within their capacity.
pub proof fn lemma_miss(w: World, prev: usize, key: usize)
    requires
        w.ok(),
        transition_hit(w.edges, w.cells, prev, key) is None,
    ensures
        transition_shared(w.edges, w.cells, prev, key) == w.cells,
{
    let e = w.edges[transition_slot(prev, key)];
    assert(0 <= transition_slot(prev, key) < w.edges.len());
    if believed_edge(w.edges, w.cells, prev, key) is Some {
        assert(edge_ok(w.cells, e));
    }
}

/// The keys of an object are spelled by the elements of its keys array.
pub proof fn lemma_spelled(w: World, obj: usize)
    requires
        w.ok(),
        object_at(w.cells, obj) is Some,
    ensures
        ({
            let list = elements(w.cells, object_at(w.cells, obj)->0.header.keys_array);
            let names = own_keys(w.cells, obj);
            &&& names.len() == list.len()
            &&& names_ok(w.cells, list)
            &&& names.no_duplicates()
            &&& forall|i: int|
                0 <= i < list.len() ==> string_at(w.cells, payload(#[trigger] list[i])) == Some(
                    names[i],
                )
            &&& forall|i: int|
                0 <= i < list.len() ==> key_bytes(w.cells, list[i]) == Some(#[trigger] names[i])
        }),
{
    let keys = object_at(w.cells, obj)->0.header.keys_array;
    let list = elements(w.cells, keys);
    let names = own_keys(w.cells, obj);
    if keys != 0 {
        assert(keys_ok(w.cells, keys));
    }
    assert forall|i: int| 0 <= i < list.len() implies key_bytes(w.cells, list[i]) == Some(
        #[trigger] names[i],
    ) by {
        assert(tagged(list[i], STRING_TAG));
    }
    assert forall|i: int, j: int| 0 <= i < names.len() && 0 <= j < names.len() && i
        != j implies names[i] != names[j] by {
        assert(key_bytes(w.cells, list[i]) == Some(names[i]));
        assert(key_bytes(w.cells, list[j]) == Some(names[j]));
        if i < j {
            assert(string_at(w.cells, payload(list[i])) != string_at(w.cells, payload(list[j])));
        } else {
            assert(string_at(w.cells, payload(list[j])) != string_at(w.cells, payload(list[i])));
        }
    }
}

/// No array gets shorter when another is allocated.
proof fn lemma_listed_lengths(before: Cells, at: usize, array: ArrayView, k: usize)
    requires
        !before.contains_key(0),
        !before.contains_key(at),
        at != 0,
        array.forward == 0,
    ensures
        array_length(before, k) <= array_length(before.insert(at, fresh_array(array)), k),
    decreases usize::MAX - k,
{
    let after = before.insert(at, fresh_array(array));
    assert(array_at(before, 0) is None);
    if let Some(a) = array_at(before, k) {
        assert(array_at(after, k) == Some(a));
        if a.forward != 0 && k < a.forward {
            lemma_listed_lengths(before, at, array, a.forward);
        }
    }
}

/// Allocating an array that nothing refers to yet.
pub proof fn lemma_listed(w: World, at: usize, array: ArrayView)
    requires
        w.ok(),
        at != 0,
        !w.cells.contains_key(at),
        array.forward == 0,
    ensures
        (World { cells: w.cells.insert(at, fresh_array(array)), ..w }).ok(),
        forall|o: usize| #[trigger]
            object_at(w.cells.insert(at, fresh_array(array)), o) == object_at(w.cells, o),
        forall|o: usize|
            (#[trigger] object_at(w.cells, o)) is Some ==> own_keys(
                w.cells.insert(at, fresh_array(array)),
                o,
            ) == own_keys(w.cells, o),
{
    let after = w.cells.insert(at, fresh_array(array));
    assert forall|a: usize| a != at implies #[trigger] array_at(after, a) == array_at(
        w.cells,
        a,
    ) by {}
    assert forall|a: usize| #[trigger] string_at(after, a) == string_at(w.cells, a) by {}
    assert forall|o: usize| #[trigger] object_at(after, o) == object_at(w.cells, o) by {}
    assert forall|k: usize| #[trigger] keys_ok(w.cells, k) implies keys_ok(after, k) && elements(
        after,
        k,
    ) == elements(w.cells, k) by {}
    assert forall|k: usize| #[trigger] array_length(w.cells, k) <= array_length(after, k) by {
        lemma_listed_lengths(w.cells, at, array, k);
    }
    assert forall|e: TransitionEntry| #[trigger] edge_ok(w.cells, e) implies edge_ok(
        after,
        e,
    ) by {
        assert(e.next_keys != at);
    }
    assert forall|o: usize| (#[trigger] object_at(w.cells, o)) is Some implies own_keys(after, o)
        == own_keys(w.cells, o) by {
        let keys = object_at(w.cells, o)->0.header.keys_array;
        if keys != 0 {
            assert(keys_ok(w.cells, keys));
        } else {
            assert(array_at(w.cells, 0) is None);
        }
        assert(own_keys(after, o) =~= own_keys(w.cells, o));
    }
}

/// The state after the keys array of a shape was cached, with the counter of
/// ids at `next`.
pub open spec fn cached_world(w: World, next: u32, id: u32, keys: usize) -> World {
    let shapes = ensured(w.shapes, next, keys);
    World {
        cells: shared(w.cells, keys),
        shapes,
        cache: w.cache.insert(
            id,
            CachedShape { keys_array: keys, runtime_shape_id: shapes[keys].shape_id },
        ),
        ..w
    }
}

/// Caching the keys array of a shape.
pub proof fn lemma_cached(w: World, next: u32, id: u32, keys: usize)
    requires
        w.ok(),
        ids_drawn(w.shapes, next),
        keys != 0,
        keys_ok(w.cells, keys),
    ensures
        cached_world(w, next, id, keys).ok(),
        forall|o: usize| #[trigger]
            object_at(shared(w.cells, keys), o) == object_at(w.cells, o),
        forall|o: usize| #[trigger] own_keys(shared(w.cells, keys), o) == own_keys(w.cells, o),
        forall|k: usize| #[trigger] elements(shared(w.cells, keys), k) == elements(w.cells, k),
{
    let gc = GcHeader { shape_shared: true, ..w.cells[keys].gc };
    let after = cached_world(w, next, id, keys);
    lemma_marked(w, keys, gc);
    lemma_headers_do_not_matter(w.cells, keys, gc);
    lemma_same_lists(w.cells, after.cells);
    ids_stay_sound(w.shapes, next, w.cells, keys, 0, 0, 0, 0, true);
    let marked = World { cells: after.cells, ..w };
    lemma_recorded(marked, after.shapes);
}

// ---------------------------------------------------------------------------
// What does not show
// ---------------------------------------------------------------------------
/// Whatever was an object or a string still is: an object of the same type and
/// class with the same metadata, a string with the same bytes.
pub open spec fn kept(before: Cells, after: Cells) -> bool {
    &&& forall|a: usize|
        (#[trigger] string_at(before, a)) is Some ==> string_at(after, a) == string_at(before, a)
    &&& forall|o: usize|
        (#[trigger] object_at(before, o)) is Some ==> {
            let was = object_at(before, o)->0.header;
            let is = object_at(after, o)->0.header;
            &&& object_at(after, o) is Some
            &&& is.object_type == was.object_type
            &&& is.class_id == was.class_id
            &&& is.meta == was.meta
        }
}

/// Nothing that a program sees differs between the two.
pub open spec fn same_properties(before: World, after: World) -> bool {
    &&& forall|o: usize|
        (#[trigger] object_at(after.cells, o)) is Some <==> object_at(before.cells, o) is Some
    &&& forall|o: usize|
        object_at(before.cells, o) is Some ==> #[trigger] own_keys(after.cells, o) == own_keys(
            before.cells,
            o,
        )
    &&& forall|o: usize, k: Seq<u8>|
        object_at(before.cells, o) is Some ==> #[trigger] after.property(o, k)
            == before.property(o, k)
}

/// `after` is `before` with more cells, and nothing else.
pub open spec fn only_added(before: World, after: World) -> bool {
    &&& after == (World { cells: after.cells, ..before })
    &&& forall|a: usize| #[trigger]
        before.cells.contains_key(a) ==> after.cells.contains_key(a) && after.cells[a]
            == before.cells[a]
    &&& forall|o: usize| #[trigger] object_at(after.cells, o) == object_at(before.cells, o)
}

/// More cells change no property.
pub proof fn lemma_only_added(before: World, after: World)
    requires
        before.ok(),
        after.ok(),
        only_added(before, after),
    ensures
        same_properties(before, after),
        forall|b: u64|
            (#[trigger] key_bytes(before.cells, b)) is Some ==> key_bytes(after.cells, b)
                == key_bytes(before.cells, b),
        forall|k: usize|
            (#[trigger] array_at(before.cells, k)) is Some ==> array_at(after.cells, k)
                == array_at(before.cells, k),
{
    assert forall|o: usize|
        object_at(before.cells, o) is Some implies #[trigger] own_keys(after.cells, o) == own_keys(
        before.cells,
        o,
    ) by {
        lemma_spelled(before, o);
        let keys = object_at(before.cells, o)->0.header.keys_array;
        let list = elements(before.cells, keys);
        let names = own_keys(before.cells, o);
        if keys != 0 {
            assert(keys_ok(before.cells, keys));
        }
        assert(elements(after.cells, keys) == list);
        assert forall|i: int| 0 <= i < list.len() implies key_bytes(after.cells, list[i])
            == key_bytes(before.cells, #[trigger] list[i]) by {
            assert(key_bytes(before.cells, list[i]) == Some(names[i]));
        }
        assert(own_keys(after.cells, o) =~= names);
    }
    assert forall|o: usize, k: Seq<u8>|
        object_at(before.cells, o) is Some implies #[trigger] after.property(o, k)
        == before.property(o, k) by {
        let at = own_keys(before.cells, o).index_of(k);
        assert(slot_value(after.cells, after.overflow, o, at) == slot_value(
            before.cells,
            before.overflow,
            o,
            at,
        ));
    }
}

// ---------------------------------------------------------------------------
// Laws
// ---------------------------------------------------------------------------
/// A slot of an object is inline up to the fields that it was made with, and up
/// to the fourth in any case; beyond that it is on the side, and undefined if it
/// was never written there.
pub proof fn slots_are_inline_or_on_the_side(
    cells: Cells,
    overflow: Map<usize, Seq<u64>>,
    obj: usize,
    slot: int,
)
    requires
        object_at(cells, obj) is Some,
        0 <= slot,
    ensures
        ({
            let o = object_at(cells, obj)->0;
            let value = slot_value(cells, overflow, obj, slot);
            &&& slot < 4 || slot < o.header.field_count ==> value == o.fields[slot]
            &&& slot >= 4 && slot >= o.header.field_count && overflow.contains_key(obj) && slot
                < overflow[obj].len() ==> value == overflow[obj][slot]
            &&& slot >= 4 && slot >= o.header.field_count && !(overflow.contains_key(obj) && slot
                < overflow[obj].len()) ==> value == 0x7FFC_0000_0000_0001
        }),
{
}

/// The properties of an object are its keys, each with the value in the slot of
/// the same number. No key occurs twice, each is spelled by the element of the
/// keys array with that number, and an object without a keys array has none.
pub proof fn properties_are_keys_with_slots(w: World, obj: usize, i: int, key: Seq<u8>)
    requires
        w.ok(),
        object_at(w.cells, obj) is Some,
    ensures
        ({
            let names = own_keys(w.cells, obj);
            let keys = object_at(w.cells, obj)->0.header.keys_array;
            &&& keys == 0 ==> names.len() == 0
            &&& keys != 0 ==> array_at(w.cells, keys) is Some && names.len() == array_at(
                w.cells,
                keys,
            )->0.length
            &&& names.no_duplicates()
            &&& 0 <= i < names.len() ==> {
                &&& string_at(w.cells, payload(array_at(w.cells, keys)->0.slots[i])) == Some(
                    names[i],
                )
                &&& w.property(obj, names[i]) == Some(slot_value(w.cells, w.overflow, obj, i))
            }
            &&& w.property(obj, key) is Some <==> exists|j: int|
                0 <= j < names.len() && #[trigger] names[j] == key
        }),
{
    lemma_spelled(w, obj);
    let names = own_keys(w.cells, obj);
    let keys = object_at(w.cells, obj)->0.header.keys_array;
    let list = elements(w.cells, keys);
    if keys != 0 {
        assert(keys_ok(w.cells, keys));
    }
    if 0 <= i < names.len() {
        assert(list[i] == array_at(w.cells, keys)->0.slots[i]);
        assert(names.contains(names[i]));
        assert(names.index_of(names[i]) == i);
    }
}

} // verus!
