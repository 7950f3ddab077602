//! Objects whose keys are known at compile time.

use vstd::prelude::*;

use crate::gc::GcEvent;
use crate::heap::{
    array_at, frontier_after, object_at, shared, string_at, CellView, GcHeader, ObjectHeader,
    OBJECT_TYPE_REGULAR,
};
use crate::key_lists::{array_from, array_of, array_room, elements, fresh_array};
use crate::keys::{
    bucket_of, fnv1a, fresh_string, interned_addr, interned_key_ptr, key_bytes,
    lemma_found_interned,
};
use crate::object_ops::{allocate_object, key_interned, newborn_object, object_room};
use crate::runtime::{ObjectRuntime, ObjectState};
use crate::shape_cache::{
    insert_is_found_and_evicts_nothing, lookup_agrees_with_map, shape_cache_get_with_id,
    shape_cache_insert, CachedShape,
};
use crate::shapes::{
    after_id, drew, ensured, ensured_next, ids_stay_sound, newborn, new_ids_are_drawn, next_id,
    ShapeIds,
};
use crate::value::{
    boxed, payload, string_boxes_round_trip, tagged, JSValue, STRING_TAG, TAG_UNDEFINED,
};
use crate::world::{
    cached_world, kept, keys_ok, lemma_allocated, lemma_cached, lemma_listed, lemma_marked,
    names_ok, own_keys, same_properties, slot_value, World,
};

verus! {

/// The names in a packed list of at least one byte, which zero bytes separate.
pub open spec fn split_names(packed: Seq<u8>) -> Seq<Seq<u8>>
    decreases packed.len(),
{
    if packed.len() == 0 {
        seq![Seq::empty()]
    } else {
        let before = split_names(packed.drop_last());
        if packed.last() == 0 {
            before.push(Seq::empty())
        } else {
            before.drop_last().push(before.last().push(packed.last()))
        }
    }
}

/// The names in a packed list. An empty list has none.
pub open spec fn packed_names(packed: Seq<u8>) -> Seq<Seq<u8>> {
    if packed.len() == 0 {
        Seq::empty()
    } else {
        split_names(packed)
    }
}

proof fn lemma_split_len(packed: Seq<u8>)
    ensures
        1 <= split_names(packed).len() <= packed.len() + 1,
    decreases packed.len(),
{
    if packed.len() > 0 {
        lemma_split_len(packed.drop_last());
    }
}

/// `after` is `before` with more strings, which nothing refers to.
pub open spec fn strings_added(before: World, after: World) -> bool {
    &&& after == (World { cells: after.cells, ..before })
    &&& forall|a: usize| #[trigger] before.cells.contains_key(a) ==> after.cells.contains_key(a)
    &&& forall|o: usize| #[trigger] object_at(after.cells, o) == object_at(before.cells, o)
    &&& forall|a: usize|
        (#[trigger] string_at(before.cells, a)) is Some ==> string_at(after.cells, a)
            == string_at(before.cells, a)
    &&& forall|o: usize|
        object_at(before.cells, o) is Some ==> #[trigger] own_keys(after.cells, o) == own_keys(
            before.cells,
            o,
        )
}

/// The state once a string that spells `name` was allocated.
pub open spec fn name_allocated(s: ObjectState, name: Seq<u8>) -> ObjectState {
    ObjectState {
        cells: s.cells.insert(s.next_cell(), fresh_string(name)),
        frontier: frontier_after(s.frontier, CellView::String(name)),
        ..s
    }
}

/// The state once `name` was allocated and has a canonical string.
pub open spec fn name_interned(s: ObjectState, name: Seq<u8>) -> ObjectState {
    key_interned(name_allocated(s, name), s.next_cell())
}

/// The canonical string that `name` then has.
pub open spec fn name_string(s: ObjectState, name: Seq<u8>) -> usize {
    interned_addr(name_allocated(s, name).cells, s.interned, s.next_cell())
}

/// The state once all names have canonical strings, one after the other.
pub open spec fn names_interned(s: ObjectState, names: Seq<Seq<u8>>) -> ObjectState
    decreases names.len(),
{
    if names.len() == 0 {
        s
    } else {
        name_interned(names_interned(s, names.drop_last()), names.last())
    }
}

/// The boxed canonical strings that the names then have.
pub open spec fn names_strings(s: ObjectState, names: Seq<Seq<u8>>) -> Seq<u64>
    decreases names.len(),
{
    if names.len() == 0 {
        Seq::empty()
    } else {
        names_strings(s, names.drop_last()).push(
            boxed(
                STRING_TAG,
                name_string(names_interned(s, names.drop_last()), names.last()),
            ),
        )
    }
}

/// The canonical string that spells `name`, which is made if there is none.
fn intern_name(rt: &mut ObjectRuntime, name: &[u8]) -> (r: usize)
    requires
        old(rt).wf(),
        name@.len() + 64 <= old(rt).heap.room(),
    ensures
        final(rt).wf(),
        strings_added(old(rt).world(), final(rt).world()),
        string_at(final(rt).heap@, r) == Some(name@),
        final(rt).heap.room() >= old(rt).heap.room() - name@.len() - 64,
        forall|n: u32| #[trigger]
            final(rt).state(n) == name_interned(old(rt).state(n), name@),
        forall|n: u32| r == #[trigger] name_string(old(rt).state(n), name@),
        *final(rt) == (ObjectRuntime {
            heap: final(rt).heap,
            interned: final(rt).interned,
            ..*old(rt)
        }),
{
    let s = rt.new_string(name);
    let ghost w1 = rt.world();
    let ghost table = rt.interned@;
    let r = interned_key_ptr(&mut rt.heap, &mut rt.interned, s);
    proof {
        lemma_found_interned(w1.cells, bucket_of(table, fnv1a(name@)), name@, 0);
        if rt.heap@ != w1.cells {
            lemma_marked(w1, s, GcHeader { interned: true, ..w1.cells[s].gc });
        }
        assert(rt.world() == (World { cells: rt.heap@, ..w1 }));
        assert forall|n: u32| #[trigger]
            rt.state(n) == name_interned(old(rt).state(n), name@) by {}
        assert forall|n: u32| r == #[trigger] name_string(old(rt).state(n), name@) by {}
    }
    r
}

/// Room on the heap that the keys of a packed list of `len` bytes may take.
pub open spec fn packed_room(len: int) -> int {
    65 * (len + 1) + array_room(len + 1)
}

/// One more name.
proof fn lemma_name_added(
    start: ObjectRuntime,
    before: ObjectRuntime,
    after: ObjectRuntime,
    names: Seq<Seq<u8>>,
    so_far: Seq<u64>,
    s: usize,
)
    requires
        names.len() > 0,
        forall|n: u32| #[trigger]
            before.state(n) == names_interned(start.state(n), names.drop_last()),
        forall|n: u32| so_far == #[trigger] names_strings(start.state(n), names.drop_last()),
        forall|n: u32| #[trigger] after.state(n) == name_interned(before.state(n), names.last()),
        forall|n: u32| s == #[trigger] name_string(before.state(n), names.last()),
    ensures
        forall|n: u32| #[trigger] after.state(n) == names_interned(start.state(n), names),
        forall|n: u32|
            so_far.push(boxed(STRING_TAG, s)) == #[trigger] names_strings(start.state(n), names),
{
    assert forall|n: u32| #[trigger] after.state(n) == names_interned(start.state(n), names) by {
        assert(before.state(n) == names_interned(start.state(n), names.drop_last()));
    }
    assert forall|n: u32| so_far.push(boxed(STRING_TAG, s)) == #[trigger] names_strings(
        start.state(n),
        names,
    ) by {
        assert(before.state(n) == names_interned(start.state(n), names.drop_last()));
        assert(s == name_string(before.state(n), names.last()));
        assert(so_far == names_strings(start.state(n), names.drop_last()));
    }
}

/// Interns the names of a packed list: their boxed strings.
fn intern_packed(rt: &mut ObjectRuntime, packed: &[u8]) -> (r: Vec<u64>)
    requires
        old(rt).wf(),
        packed_room(packed@.len() as int) <= old(rt).heap.room(),
    ensures
        final(rt).wf(),
        strings_added(old(rt).world(), final(rt).world()),
        *final(rt) == (ObjectRuntime {
            heap: final(rt).heap,
            interned: final(rt).interned,
            ..*old(rt)
        }),
        final(rt).heap.room() >= old(rt).heap.room() - 65 * (packed@.len() + 1),
        r@.len() == packed_names(packed@).len(),
        r@.len() <= packed@.len() + 1,
        forall|n: u32| #[trigger]
            final(rt).state(n) == names_interned(old(rt).state(n), packed_names(packed@)),
        forall|n: u32| r@ == #[trigger] names_strings(old(rt).state(n), packed_names(packed@)),
        forall|i: int|
            0 <= i < r@.len() ==> tagged(#[trigger] r@[i], STRING_TAG) && string_at(
                final(rt).heap@,
                payload(r@[i]),
            ) == Some(packed_names(packed@)[i]),
{
    let ghost w0 = rt.world();
    let mut out: Vec<u64> = Vec::new();
    if packed.len() == 0 {
        return out;
    }
    let mut current: Vec<u8> = Vec::new();
    let mut i: usize = 0;
    let ghost room = rt.heap.room();
    proof {
        assert(packed@.take(0) =~= Seq::<u8>::empty());
        assert(current@ =~= Seq::<u8>::empty());
    }
    while i < packed.len()
        invariant
            i <= packed@.len(),
            rt.wf(),
            strings_added(w0, rt.world()),
            *rt == (ObjectRuntime { heap: rt.heap, interned: rt.interned, ..*old(rt) }),
            room == old(rt).heap.room(),
            packed_room(packed@.len() as int) <= room,
            rt.heap.room() >= room - 64 * out@.len() - (i - current@.len()),
            out@.len() + current@.len() <= i,
            out@.len() + 1 == split_names(packed@.take(i as int)).len(),
            current@ == split_names(packed@.take(i as int)).last(),
            forall|n: u32| #[trigger]
                rt.state(n) == names_interned(
                    old(rt).state(n),
                    split_names(packed@.take(i as int)).drop_last(),
                ),
            forall|n: u32|
                out@ == #[trigger] names_strings(
                    old(rt).state(n),
                    split_names(packed@.take(i as int)).drop_last(),
                ),
            forall|j: int|
                0 <= j < out@.len() ==> tagged(#[trigger] out@[j], STRING_TAG) && string_at(
                    rt.heap@,
                    payload(out@[j]),
                ) == Some(split_names(packed@.take(i as int))[j]),
        decreases packed@.len() - i,
    {
        let b: u8 = packed[i];
        let ghost names = split_names(packed@.take(i as int));
        let ghost before = *rt;
        let ghost so_far = out@;
        assert(packed@.take(i + 1).drop_last() =~= packed@.take(i as int));
        assert(packed@.take(i + 1).last() == b);
        if b == 0 {
            let s = intern_name(rt, current.as_slice());
            proof {
                assert(rt.heap@.contains_key(s));
                string_boxes_round_trip(s);
            }
            out.push(JSValue::string(s).bits());
            current = Vec::new();
            assert(current@ =~= Seq::<u8>::empty());
            proof {
                let more = split_names(packed@.take(i + 1));
                assert(more.drop_last() =~= names);
                lemma_name_added(*old(rt), before, *rt, names, so_far, s);
            }
        } else {
            current.push(b);
            proof {
                let more = split_names(packed@.take(i + 1));
                assert(more.drop_last() =~= names.drop_last());
            }
        }
        i += 1;
    }
    assert(packed@.take(i as int) =~= packed@);
    let ghost before = *rt;
    let ghost so_far = out@;
    let s = intern_name(rt, current.as_slice());
    proof {
        lemma_name_added(*old(rt), before, *rt, split_names(packed@), so_far, s);
        assert(rt.heap@.contains_key(s));
        string_boxes_round_trip(s);
    }
    out.push(JSValue::string(s).bits());
    out
}

/// The reports once a keys array is cached.
pub open spec fn cached_reports(keys: usize) -> Seq<GcEvent> {
    seq![GcEvent::RootStore { addr: keys }, GcEvent::RootBarrier { addr: keys }]
}

/// The state once the keys array with these names was made and cached under
/// `shape_id`.
pub open spec fn keys_cached(s: ObjectState, shape_id: u32, names: Seq<Seq<u8>>) -> ObjectState {
    let named = names_interned(s, names);
    let list = names_strings(s, names);
    let array = array_of(list, list.len() as int);
    let keys = named.next_cell();
    let shapes = ensured(named.shapes, named.next, keys);
    ObjectState {
        cells: shared(named.cells.insert(keys, fresh_array(array)), keys),
        frontier: frontier_after(named.frontier, CellView::Array(array)),
        shapes,
        next: ensured_next(named.shapes, named.next, keys),
        shape_cache: named.shape_cache.inserted(
            shape_id,
            CachedShape { keys_array: keys, runtime_shape_id: shapes[keys].shape_id },
        ),
        gc: named.gc + cached_reports(keys),
        ..named
    }
}

/// Makes the keys array for a packed list and caches it under `shape_id`.
fn cache_packed(rt: &mut ObjectRuntime, ids: &mut ShapeIds, shape_id: u32, packed: &[u8])
    requires
        old(rt).wf(),
        old(rt).draws_from(*old(ids)),
        packed_names(packed@).no_duplicates(),
        packed_room(packed@.len() as int) <= old(rt).heap.room(),
        packed@.len() < u32::MAX,
    ensures
        final(rt).wf(),
        final(rt).heap.room() >= old(rt).heap.room() - packed_room(packed@.len() as int),
        same_properties(old(rt).world(), final(rt).world()),
        kept(old(rt).heap@, final(rt).heap@),
        forall|o: usize| #[trigger]
            object_at(final(rt).heap@, o) == object_at(old(rt).heap@, o),
        forall|a: usize| #[trigger]
            old(rt).heap@.contains_key(a) ==> final(rt).heap@.contains_key(a),
        drew(old(rt).shapes@, old(ids).next, final(rt).shapes@, final(ids).next),
        final(rt).state(final(ids).next) == keys_cached(
            old(rt).state(old(ids).next),
            shape_id,
            packed_names(packed@),
        ),
        ({
            let cached = final(rt).hot.shape_cache@.lookup(shape_id);
            let keys = cached.keys_array;
            &&& keys != 0
            &&& keys == names_interned(
                old(rt).state(old(ids).next),
                packed_names(packed@),
            ).next_cell()
            &&& !old(rt).heap@.contains_key(keys)
            &&& !old(rt).shapes@.contains_key(keys)
            &&& cached.runtime_shape_id == next_id(old(ids).next)
            &&& final(ids).next == after_id(old(ids).next)
            &&& final(rt).shapes@ == old(rt).shapes@.insert(
                keys,
                newborn(next_id(old(ids).next)),
            )
            &&& final(rt).interned@ == names_interned(
                old(rt).state(old(ids).next),
                packed_names(packed@),
            ).interned
            &&& final(rt).gc@ == old(rt).gc@ + cached_reports(keys)
            &&& elements(final(rt).heap@, keys).map_values(
                |b: u64| key_bytes(final(rt).heap@, b)->0,
            ) == packed_names(packed@)
        }),
{
    let ghost w0 = rt.world();
    let ghost names = packed_names(packed@);
    let list = intern_packed(rt, packed);
    let ghost w1 = rt.world();
    let ghost named = rt.state(ids.next);
    assert(list@ == names_strings(old(rt).state(old(ids).next), names));
    let keys = array_from(&mut rt.heap, &list, list.len() as u32);
    let ghost w2 = rt.world();
    let ghost array = array_of(list@, list@.len() as int);
    proof {
        assert(w2 == (World { cells: w1.cells.insert(keys, fresh_array(array)), ..w1 }));
        lemma_listed(w1, keys, array);
        assert(elements(w2.cells, keys) =~= list@);
        assert forall|i: int| 0 <= i < list@.len() implies tagged(
            #[trigger] list@[i],
            STRING_TAG,
        ) && string_at(w2.cells, payload(list@[i])) == Some(names[i]) by {
            assert(string_at(w1.cells, payload(list@[i])) == Some(names[i]));
        }
        assert(names_ok(w2.cells, list@)) by {
            assert forall|i: int, j: int| 0 <= i < j < list@.len() implies string_at(
                w2.cells,
                payload(#[trigger] list@[i]),
            ) != string_at(w2.cells, payload(#[trigger] list@[j])) by {
                assert(names[i] != names[j]);
            }
        }
        assert(keys_ok(w2.cells, keys));
        lemma_cached(w2, ids.next, shape_id, keys);
        ids_stay_sound(w2.shapes, ids.next, w2.cells, keys, 0, 0, 0, 0, true);
        new_ids_are_drawn(w2.shapes, ids.next, w2.cells, keys, 0, 0, 0, 0, true);
    }
    let ghost cache = rt.hot.shape_cache@;
    shape_cache_insert(
        &mut rt.hot.shape_cache,
        &mut rt.heap,
        &mut rt.shapes,
        ids,
        &mut rt.gc,
        shape_id,
        keys,
    );
    proof {
        let w3 = rt.world();
        assert(w3 == cached_world(w2, old(ids).next, shape_id, keys));
        assert(rt.gc@ =~= named.gc + cached_reports(keys));
        assert(rt.state(ids.next) == keys_cached(
            old(rt).state(old(ids).next),
            shape_id,
            names,
        ));
        let shape = w3.cache[shape_id];
        insert_is_found_and_evicts_nothing(cache, shape_id, shape, shape_id);
        assert(rt.hot.shape_cache@.lookup(shape_id) == shape);
        assert(!w2.shapes.contains_key(keys)) by {
            if w1.shapes.contains_key(keys) {
                assert(array_at(w1.cells, keys) is Some);
            }
        }
        assert(elements(w3.cells, keys).map_values(|b: u64| key_bytes(w3.cells, b)->0) =~= names)
            by {
            assert forall|i: int| 0 <= i < list@.len() implies key_bytes(
                w3.cells,
                #[trigger] list@[i],
            ) == Some(names[i]) by {
                assert(tagged(list@[i], STRING_TAG));
                assert(string_at(w2.cells, payload(list@[i])) == Some(names[i]));
                assert(string_at(w3.cells, payload(list@[i])) == string_at(
                    w2.cells,
                    payload(list@[i]),
                ));
            }
        }
        assert forall|o: usize|
            object_at(w0.cells, o) is Some implies #[trigger] own_keys(w3.cells, o) == own_keys(
            w0.cells,
            o,
        ) by {
            assert(object_at(w1.cells, o) is Some);
        }
    }
}

/// The state once the keys array of a shape is cached.
pub open spec fn shape_ready(s: ObjectState, shape_id: u32, packed: Seq<u8>) -> ObjectState {
    if s.shape_cache.lookup(shape_id).keys_array != 0 {
        s
    } else {
        keys_cached(s, shape_id, packed_names(packed))
    }
}

/// The state once an object with the keys of a shape was allocated.
pub open spec fn literal_allocated(
    s: ObjectState,
    shape_id: u32,
    field_count: u32,
    packed: Seq<u8>,
) -> ObjectState {
    let ready = shape_ready(s, shape_id, packed);
    let cached = ready.shape_cache.lookup(shape_id);
    let object = newborn_object(
        ObjectHeader {
            object_type: OBJECT_TYPE_REGULAR,
            class_id: 0,
            parent_class_id: cached.runtime_shape_id,
            field_count,
            keys_array: cached.keys_array,
            meta: 0,
        },
    );
    ObjectState {
        cells: ready.cells.insert(ready.next_cell(), object),
        frontier: frontier_after(ready.frontier, object.cell),
        ..ready
    }
}

/// Allocates a plain object with the keys of a shape, all undefined. `shape_id`
/// is the compile-time id of the packed key list; the first object of a shape
/// makes the keys array, and all others share it. The object is born with the
/// stamp of its shape.
pub fn js_object_alloc_with_shape(
    rt: &mut ObjectRuntime,
    ids: &mut ShapeIds,
    shape_id: u32,
    field_count: u32,
    packed: &[u8],
) -> (obj: usize)
    requires
        old(rt).wf(),
        old(rt).draws_from(*old(ids)),
        packed_names(packed@).no_duplicates(),
        packed_room(packed@.len() as int) + object_room(field_count) <= old(rt).heap.room(),
        packed@.len() < u32::MAX,
    ensures
        final(rt).wf(),
        final(rt).heap.room() >= old(rt).heap.room() - packed_room(packed@.len() as int)
            - object_room(field_count),
        !old(rt).heap@.contains_key(obj),
        object_at(final(rt).heap@, obj) is Some,
        drew(old(rt).shapes@, old(ids).next, final(rt).shapes@, final(ids).next),
        obj == shape_ready(old(rt).state(old(ids).next), shape_id, packed@).next_cell(),
        final(rt).state(final(ids).next) == literal_allocated(
            old(rt).state(old(ids).next),
            shape_id,
            field_count,
            packed@,
        ),
        ({
            let before = old(rt).world();
            let after = final(rt).world();
            let had = old(rt).hot.shape_cache@.lookup(shape_id);
            let cached = final(rt).hot.shape_cache@.lookup(shape_id);
            let o = object_at(after.cells, obj)->0;
            &&& kept(before.cells, after.cells)
            &&& forall|o: usize|
                object_at(before.cells, o) is Some ==> #[trigger] object_at(after.cells, o)
                    == object_at(before.cells, o)
            &&& o.header == (ObjectHeader {
                object_type: OBJECT_TYPE_REGULAR,
                class_id: 0,
                parent_class_id: cached.runtime_shape_id,
                field_count,
                keys_array: cached.keys_array,
                meta: 0,
            })
            &&& cached.keys_array != 0
            &&& if had.keys_array != 0 {
                &&& cached == had
                &&& final(rt).shapes@ == old(rt).shapes@
                &&& final(ids).next == old(ids).next
                &&& final(rt).interned@ == old(rt).interned@
                &&& final(rt).gc@ == old(rt).gc@
            } else {
                let named = names_interned(old(rt).state(old(ids).next), packed_names(packed@));
                &&& own_keys(after.cells, obj) == packed_names(packed@)
                &&& cached.keys_array == named.next_cell()
                &&& cached.runtime_shape_id == next_id(old(ids).next)
                &&& final(ids).next == after_id(old(ids).next)
                &&& final(rt).shapes@ == old(rt).shapes@.insert(
                    cached.keys_array,
                    newborn(next_id(old(ids).next)),
                )
                &&& final(rt).interned@ == named.interned
                &&& final(rt).gc@ == old(rt).gc@ + cached_reports(cached.keys_array)
            }
            &&& forall|i: int| 0 <= i < o.fields.len() ==> #[trigger] o.fields[i] == TAG_UNDEFINED
            &&& forall|k: Seq<u8>|
                own_keys(after.cells, obj).contains(k) ==> #[trigger] after.property(obj, k)
                    == Some(TAG_UNDEFINED)
            &&& forall|o: usize, k: Seq<u8>|
                object_at(before.cells, o) is Some ==> #[trigger] after.property(o, k)
                    == before.property(o, k)
        }),
{
    let ghost w0 = rt.world();
    let mut cached = shape_cache_get_with_id(&rt.hot.shape_cache, shape_id);
    if cached.keys_array == 0 {
        cache_packed(rt, ids, shape_id, packed);
        cached = shape_cache_get_with_id(&rt.hot.shape_cache, shape_id);
    }
    let ghost w1 = rt.world();
    let keys = cached.keys_array;
    proof {
        lookup_agrees_with_map(rt.hot.shape_cache@, shape_id);
        assert(w1.cache.contains_key(shape_id) && w1.cache[shape_id] == cached);
        assert(keys_ok(w1.cells, keys));
    }
    let header = ObjectHeader {
        object_type: OBJECT_TYPE_REGULAR,
        class_id: 0,
        parent_class_id: cached.runtime_shape_id,
        field_count,
        keys_array: keys,
        meta: 0,
    };
    let obj = allocate_object(rt, header);
    proof {
        let w2 = rt.world();
        let entry = newborn_object(header);
        assert(w2 == (World { cells: w1.cells.insert(obj, entry), ..w1 }));
        lemma_allocated(w1, obj, entry);
        assert forall|a: usize| a != obj implies #[trigger] string_at(w2.cells, a) == string_at(
            w1.cells,
            a,
        ) by {}
        let list = elements(w1.cells, keys);
        assert(own_keys(w2.cells, obj) =~= list.map_values(|b: u64| key_bytes(w1.cells, b)->0))
            by {
            assert forall|i: int| 0 <= i < list.len() implies key_bytes(
                w2.cells,
                #[trigger] list[i],
            ) == key_bytes(w1.cells, list[i]) by {
                assert(tagged(list[i], STRING_TAG));
                assert(string_at(w1.cells, payload(list[i])) is Some);
            }
        }
        assert(!w2.overflow.contains_key(obj)) by {
            if w1.overflow.contains_key(obj) {
                assert(object_at(w1.cells, obj) is Some);
            }
        }
        assert forall|i: int| 0 <= i implies #[trigger] slot_value(
            w2.cells,
            w2.overflow,
            obj,
            i,
        ) == TAG_UNDEFINED by {}
        assert forall|k: Seq<u8>| own_keys(w2.cells, obj).contains(k) implies #[trigger] w2.property(
            obj,
            k,
        ) == Some(TAG_UNDEFINED) by {
            let at = own_keys(w2.cells, obj).index_of(k);
            assert(0 <= at);
            assert(slot_value(w2.cells, w2.overflow, obj, at) == TAG_UNDEFINED);
        }
        assert forall|o: usize, k: Seq<u8>|
            object_at(w0.cells, o) is Some implies #[trigger] w2.property(o, k) == w0.property(
            o,
            k,
        ) by {
            assert(object_at(w1.cells, o) is Some);
            assert(w1.property(o, k) == w0.property(o, k));
            let at = own_keys(w1.cells, o).index_of(k);
            assert(slot_value(w2.cells, w2.overflow, o, at) == slot_value(
                w1.cells,
                w1.overflow,
                o,
                at,
            ));
        }
    }
    obj
}

// ---------------------------------------------------------------------------
// Laws
// ---------------------------------------------------------------------------
/// Names one after the other, with a zero byte between neighbours.
pub open spec fn joined(names: Seq<Seq<u8>>) -> Seq<u8>
    decreases names.len(),
{
    if names.len() == 0 {
        Seq::empty()
    } else if names.len() == 1 {
        names[0]
    } else {
        joined(names.drop_last()) + seq![0u8] + names.last()
    }
}

proof fn lemma_split_joins(packed: Seq<u8>)
    ensures
        split_names(packed).len() > 0,
        joined(split_names(packed)) == packed,
        forall|i: int|
            0 <= i < split_names(packed).len() ==> !(#[trigger] split_names(packed)[i]).contains(0),
    decreases packed.len(),
{
    reveal_with_fuel(joined, 2);
    let all = split_names(packed);
    if packed.len() > 0 {
        let before = split_names(packed.drop_last());
        lemma_split_joins(packed.drop_last());
        assert(packed =~= packed.drop_last().push(packed.last()));
        if packed.last() == 0 {
            assert(all.drop_last() =~= before);
            assert(joined(all) =~= packed);
        } else {
            let grown = before.last().push(packed.last());
            assert(all.drop_last() =~= before.drop_last());
            assert(all.last() == grown);
            assert(joined(all) =~= packed);
            assert forall|i: int| 0 <= i < all.len() implies !(#[trigger] all[i]).contains(
                0,
            ) by {
                if i == all.len() - 1 && all[i].contains(0) {
                    let j = choose|j: int| 0 <= j < grown.len() && grown[j] == 0;
                    assert(before.last()[j] == 0);
                    assert(before[before.len() - 1].contains(0));
                } else if i < all.len() - 1 {
                    assert(all[i] == before[i]);
                }
            }
        }
    } else {
        assert(joined(all) =~= packed);
    }
}

/// Packing loses nothing: the names of a packed list, joined by zero bytes, are
/// the list again, and no name has a zero byte. So a list without zero bytes is
/// one name, spelled as it is packed.
pub proof fn packed_names_join_to_the_list(packed: Seq<u8>)
    ensures
        joined(packed_names(packed)) == packed,
        packed.len() > 0 ==> packed_names(packed).len() > 0,
        packed.len() == 0 ==> packed_names(packed).len() == 0,
        forall|i: int|
            0 <= i < packed_names(packed).len() ==> !(#[trigger] packed_names(packed)[i]).contains(
                0,
            ),
        packed.len() > 0 && !packed.contains(0) ==> packed_names(packed) == seq![packed],
{
    lemma_split_joins(packed);
    let names = packed_names(packed);
    if packed.len() > 0 && !packed.contains(0) {
        if names.len() > 1 {
            let at = joined(names.drop_last()).len() as int;
            assert(packed[at] == 0);
        }
        assert(names =~= seq![packed]);
    }
}

/// All literals of a shape share one keys array and one stamp: the second one
/// makes no array, no string and no id, whatever list it comes with, and is
/// another object.
pub proof fn literals_of_a_shape_share_their_keys(
    s: ObjectState,
    shape_id: u32,
    first_fields: u32,
    packed: Seq<u8>,
    other_fields: u32,
    other_packed: Seq<u8>,
)
    requires
        s.shape_cache.coherent(),
        shape_ready(s, shape_id, packed).shape_cache.lookup(shape_id).keys_array != 0,
        shape_ready(s, shape_id, packed).frontier + 128 + 8 * first_fields <= usize::MAX,
    ensures
        ({
            let first = shape_ready(s, shape_id, packed).next_cell();
            let after = literal_allocated(s, shape_id, first_fields, packed);
            let other = shape_ready(after, shape_id, other_packed).next_cell();
            let end = literal_allocated(after, shape_id, other_fields, other_packed);
            let a = object_at(end.cells, first)->0.header;
            let b = object_at(end.cells, other)->0.header;
            &&& other != first
            &&& object_at(end.cells, first) is Some
            &&& object_at(end.cells, other) is Some
            &&& b.keys_array == a.keys_array
            &&& b.keys_array != 0
            &&& b.parent_class_id == a.parent_class_id
            &&& a.class_id == 0 && b.class_id == 0
            &&& a.field_count == first_fields && b.field_count == other_fields
            &&& end.next == after.next
            &&& end.shapes == after.shapes
            &&& end.interned == after.interned
            &&& end.cells == after.cells.insert(other, end.cells[other])
        }),
{
    let ready = shape_ready(s, shape_id, packed);
    let after = literal_allocated(s, shape_id, first_fields, packed);
    assert(after.shape_cache == ready.shape_cache);
    let first = ready.next_cell();
    let other = shape_ready(after, shape_id, other_packed).next_cell();
    assert(first < other);
}

/// The first literal of a shape begins the shape: its keys array is new and
/// shared, has the packed names as its keys, and a record with the id that comes
/// next, which the object is born with as its stamp. The array is reported as a
/// root.
pub proof fn first_literals_begin_the_shape(
    s: ObjectState,
    shape_id: u32,
    field_count: u32,
    packed: Seq<u8>,
)
    requires
        s.shape_cache.coherent(),
        s.shape_cache.lookup(shape_id).keys_array == 0,
        ({
            let named = names_interned(s, packed_names(packed));
            &&& named.next_cell() != 0
            &&& named.next_cell() < shape_ready(s, shape_id, packed).next_cell()
            &&& !s.shapes.contains_key(named.next_cell())
            &&& packed_names(packed).len() <= u32::MAX
        }),
    ensures
        ({
            let obj = shape_ready(s, shape_id, packed).next_cell();
            let after = literal_allocated(s, shape_id, field_count, packed);
            let header = object_at(after.cells, obj)->0.header;
            let keys = header.keys_array;
            &&& object_at(after.cells, obj) is Some
            &&& keys == names_interned(s, packed_names(packed)).next_cell()
            &&& after.cells[keys].gc.shape_shared
            &&& elements(after.cells, keys).len() == packed_names(packed).len()
            &&& after.shapes.contains_key(keys)
            &&& header.parent_class_id == after.shapes[keys].shape_id
            &&& header.parent_class_id == next_id(s.next)
            &&& after.shape_cache.lookup(shape_id) == (CachedShape {
                keys_array: keys,
                runtime_shape_id: header.parent_class_id,
            })
            &&& after.gc == s.gc.push(GcEvent::RootStore { addr: keys }).push(
                GcEvent::RootBarrier { addr: keys },
            )
        }),
{
    let names = packed_names(packed);
    let named = names_interned(s, names);
    lemma_names_touch_strings_alone(s, names);
    let list = names_strings(s, names);
    let ready = shape_ready(s, shape_id, packed);
    let keys = named.next_cell();
    insert_is_found_and_evicts_nothing(
        s.shape_cache,
        shape_id,
        CachedShape { keys_array: keys, runtime_shape_id: ready.shapes[keys].shape_id },
        shape_id,
    );
    let after = literal_allocated(s, shape_id, field_count, packed);
    assert(array_at(after.cells, keys) == Some(array_of(list, list.len() as int)));
    assert(after.gc =~= s.gc.push(GcEvent::RootStore { addr: keys }).push(
        GcEvent::RootBarrier { addr: keys },
    ));
}

proof fn lemma_names_touch_strings_alone(s: ObjectState, names: Seq<Seq<u8>>)
    ensures
        ({
            let named = names_interned(s, names);
            &&& named == (ObjectState {
                cells: named.cells,
                frontier: named.frontier,
                interned: named.interned,
                ..s
            })
            &&& names_strings(s, names).len() == names.len()
        }),
    decreases names.len(),
{
    if names.len() > 0 {
        lemma_names_touch_strings_alone(s, names.drop_last());
    }
}

} // verus!
