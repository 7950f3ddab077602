//! Keys arrays of shapes that are known at compile time.
//!
//! A direct-mapped array answers nearly every lookup; a map holds everything
//! that was inserted, for the ids that collide there.

use std::collections::HashMap;
use vstd::prelude::*;

use crate::gc::{
    address_marks, lemma_in_either, lemma_one_more_reference, references_to, GcEvent, GcLog,
    RuntimeRootVisitor, VisitorView,
};
use crate::heap::{array_at, shared, GcHeader, Heap};
use crate::rekey::{enumerates, table_keys};
use crate::shapes::{ensured, ensured_next, shape_id_for_keys_ensure, ShapeIds, ShapeTable};
use crate::value::{boxed, POINTER_TAG};

verus! {

broadcast use vstd::std_specs::hash::group_hash_axioms;

pub const SHAPE_INLINE_CACHE_SIZE: usize = 256;

/// A keys array and the id of its shape record. The id is bound when the array
/// is inserted, so a newborn object is stamped without another lookup.
#[derive(Clone, Copy, PartialEq, Eq, Structural, Debug)]
pub struct CachedShape {
    pub keys_array: usize,
    pub runtime_shape_id: u32,
}

/// An entry of the direct-mapped array. `shape_id` is the compile-time hash of
/// the key list, under which entries are looked up; a free entry has zero.
#[derive(Clone, Copy, PartialEq, Eq, Structural, Debug)]
pub struct ShapeCacheEntry {
    pub shape_id: u32,
    pub runtime_shape_id: u32,
    pub keys_array: usize,
}

#[derive(Debug)]
pub struct ShapeCache {
    pub inline_entries: Vec<ShapeCacheEntry>,
    pub overflow: HashMap<u32, CachedShape>,
}

pub struct ShapeCacheView {
    pub inline_entries: Seq<ShapeCacheEntry>,
    pub overflow: Map<u32, CachedShape>,
}

impl View for ShapeCache {
    type V = ShapeCacheView;

    open spec fn view(&self) -> ShapeCacheView {
        ShapeCacheView { inline_entries: self.inline_entries@, overflow: self.overflow@ }
    }
}

pub open spec fn no_shape() -> CachedShape {
    CachedShape { keys_array: 0, runtime_shape_id: 0 }
}

pub open spec fn free_entry() -> ShapeCacheEntry {
    ShapeCacheEntry { shape_id: 0, runtime_shape_id: 0, keys_array: 0 }
}

/// The entry of the direct-mapped array that an id maps to.
pub open spec fn inline_slot(shape_id: u32) -> int {
    shape_id as int % SHAPE_INLINE_CACHE_SIZE as int
}

impl ShapeCacheView {
    pub open spec fn wf(self) -> bool {
        self.inline_entries.len() == SHAPE_INLINE_CACHE_SIZE
    }

    /// What a lookup gives: the direct-mapped entry if it is that of the id,
    /// else what the map holds, else nothing.
    pub open spec fn lookup(self, shape_id: u32) -> CachedShape {
        let e = self.inline_entries[inline_slot(shape_id)];
        if e.shape_id == shape_id {
            CachedShape { keys_array: e.keys_array, runtime_shape_id: e.runtime_shape_id }
        } else if self.overflow.contains_key(shape_id) {
            self.overflow[shape_id]
        } else {
            no_shape()
        }
    }

    /// The cache with `shape` under `shape_id`.
    pub open spec fn inserted(self, shape_id: u32, shape: CachedShape) -> ShapeCacheView {
        ShapeCacheView {
            inline_entries: self.inline_entries.update(
                inline_slot(shape_id),
                ShapeCacheEntry {
                    shape_id,
                    runtime_shape_id: shape.runtime_shape_id,
                    keys_array: shape.keys_array,
                },
            ),
            overflow: self.overflow.insert(shape_id, shape),
        }
    }

    /// Every direct-mapped entry is a copy of what the map holds, or free.
    pub open spec fn coherent(self) -> bool {
        &&& self.wf()
        &&& forall|i: int|
            0 <= i < SHAPE_INLINE_CACHE_SIZE ==> {
                let e = #[trigger] self.inline_entries[i];
                if inline_slot(e.shape_id) == i && self.overflow.contains_key(e.shape_id) {
                    self.overflow[e.shape_id] == CachedShape {
                        keys_array: e.keys_array,
                        runtime_shape_id: e.runtime_shape_id,
                    }
                } else {
                    e == free_entry()
                }
            }
    }

    /// The cache after a walk.
    pub open spec fn moved(self, visitor: VisitorView) -> ShapeCacheView {
        ShapeCacheView {
            inline_entries: self.inline_entries.map_values(
                |e: ShapeCacheEntry|
                    ShapeCacheEntry { keys_array: visitor.moved(e.keys_array), ..e },
            ),
            overflow: self.overflow.map_values(
                |s: CachedShape| CachedShape { keys_array: visitor.moved(s.keys_array), ..s },
            ),
        }
    }
}

impl ShapeCache {
    pub fn new() -> (r: ShapeCache)
        ensures
            r@.coherent(),
            r@.inline_entries == Seq::new(
                SHAPE_INLINE_CACHE_SIZE as nat,
                |i: int| free_entry(),
            ),
            r@.overflow == Map::<u32, CachedShape>::empty(),
    {
        let r = ShapeCache {
            inline_entries: vec![
                ShapeCacheEntry { shape_id: 0, runtime_shape_id: 0, keys_array: 0 };
                SHAPE_INLINE_CACHE_SIZE
            ],
            overflow: HashMap::new(),
        };
        assert(r@.inline_entries =~= Seq::new(
            SHAPE_INLINE_CACHE_SIZE as nat,
            |i: int| free_entry(),
        ));
        r
    }
}

fn slot_of(shape_id: u32) -> (slot: usize)
    ensures
        slot == inline_slot(shape_id),
        slot < SHAPE_INLINE_CACHE_SIZE,
{
    shape_id as usize % SHAPE_INLINE_CACHE_SIZE
}

/// The keys array of a shape; zero when it is not cached.
pub fn shape_cache_get(cache: &ShapeCache, shape_id: u32) -> (r: usize)
    requires
        cache@.wf(),
    ensures
        r == cache@.lookup(shape_id).keys_array,
{
    shape_cache_get_with_id(cache, shape_id).keys_array
}

/// The keys array of a shape and the id of its record; zeros when it is not
/// cached.
pub fn shape_cache_get_with_id(cache: &ShapeCache, shape_id: u32) -> (r: CachedShape)
    requires
        cache@.wf(),
    ensures
        r == cache@.lookup(shape_id),
{
    let e = cache.inline_entries[slot_of(shape_id)];
    if e.shape_id == shape_id {
        return CachedShape { keys_array: e.keys_array, runtime_shape_id: e.runtime_shape_id };
    }
    match cache.overflow.get(&shape_id) {
        Some(s) => *s,
        None => CachedShape { keys_array: 0, runtime_shape_id: 0 },
    }
}

/// Caches the keys array of a shape. From now on the array is shared: whoever
/// extends it clones it first.
pub fn shape_cache_insert(
    cache: &mut ShapeCache,
    heap: &mut Heap,
    shapes: &mut ShapeTable,
    ids: &mut ShapeIds,
    gc: &mut GcLog,
    shape_id: u32,
    keys_array: usize,
)
    requires
        old(cache)@.wf(),
        old(heap).wf(),
        old(ids).wf(),
        keys_array != 0 ==> array_at(old(heap)@, keys_array) is Some,
    ensures
        final(cache)@.wf(),
        final(heap).wf(),
        final(ids).wf(),
        final(heap)@ == (if keys_array == 0 {
            old(heap)@
        } else {
            shared(old(heap)@, keys_array)
        }),
        final(heap).frontier() == old(heap).frontier(),
        final(shapes)@ == ensured(old(shapes)@, old(ids).next, keys_array),
        final(ids).next == ensured_next(old(shapes)@, old(ids).next, keys_array),
        final(cache)@ == old(cache)@.inserted(
            shape_id,
            CachedShape {
                keys_array,
                runtime_shape_id: if keys_array == 0 {
                    0
                } else {
                    final(shapes)@[keys_array].shape_id
                },
            },
        ),
        final(gc)@ == old(gc)@.push(GcEvent::RootStore { addr: keys_array }).push(
            GcEvent::RootBarrier { addr: keys_array },
        ),
{
    let mut length: u32 = 0;
    if keys_array != 0 {
        if let Some(h) = heap.gc_header(keys_array) {
            heap.set_gc_header(keys_array, GcHeader { shape_shared: true, ..h });
        }
        if let Some(a) = heap.array(keys_array) {
            length = a.length;
        }
    }
    let runtime_shape_id = if keys_array == 0 {
        0
    } else {
        shape_id_for_keys_ensure(shapes, ids, keys_array, length)
    };
    let slot = slot_of(shape_id);
    cache.inline_entries.set(slot, ShapeCacheEntry { shape_id, runtime_shape_id, keys_array });
    gc.report(GcEvent::RootStore { addr: keys_array });
    cache.overflow.insert(shape_id, CachedShape { keys_array, runtime_shape_id });
    gc.report(GcEvent::RootBarrier { addr: keys_array });
}

/// What the direct-mapped entries add to the marked values.
pub open spec fn entries_marks(entries: Seq<ShapeCacheEntry>) -> Seq<u64>
    decreases entries.len(),
{
    if entries.len() == 0 {
        Seq::empty()
    } else {
        entries_marks(entries.drop_last()) + address_marks(entries.last().keys_array)
    }
}

/// What the map adds to the marked values, its ids in the given order.
pub open spec fn overflow_marks(map: Map<u32, CachedShape>, order: Seq<u32>) -> Seq<u64>
    decreases order.len(),
{
    if order.len() == 0 {
        Seq::empty()
    } else {
        overflow_marks(map, order.drop_last()) + address_marks(map[order.last()].keys_array)
    }
}

/// Walks the cached keys arrays as roots, those in the map in the order in
/// which the map yields them.
pub fn scan_shape_cache_roots_mut(cache: &mut ShapeCache, visitor: &mut RuntimeRootVisitor)
    requires
        old(cache)@.wf(),
    ensures
        final(cache)@.wf(),
        final(cache)@ == old(cache)@.moved(old(visitor)@),
        exists|order: Seq<u32>|
            {
                &&& #[trigger] enumerates(order, old(cache)@.overflow.dom())
                &&& final(visitor)@ == old(visitor)@.marking(
                    entries_marks(old(cache)@.inline_entries) + overflow_marks(
                        old(cache)@.overflow,
                        order,
                    ),
                )
            },
{
    let ghost start = visitor@;
    let ghost entries = cache.inline_entries@;
    let ghost map = cache.overflow@;
    proof {
        assert(entries.take(0) =~= Seq::<ShapeCacheEntry>::empty());
        assert(start.marked + Seq::<u64>::empty() =~= start.marked);
    }
    let mut i: usize = 0;
    while i < cache.inline_entries.len()
        invariant
            i <= entries.len(),
            cache.inline_entries@.len() == entries.len(),
            cache.overflow@ == map,
            visitor@ == start.marking(entries_marks(entries.take(i as int))),
            forall|j: int|
                0 <= j < i ==> #[trigger] cache.inline_entries@[j] == (ShapeCacheEntry {
                    keys_array: start.moved(entries[j].keys_array),
                    ..entries[j]
                }),
            forall|j: int|
                i <= j < entries.len() ==> #[trigger] cache.inline_entries@[j] == entries[j],
        decreases entries.len() - i,
    {
        let mut e = cache.inline_entries[i];
        visitor.visit_usize_slot(&mut e.keys_array);
        cache.inline_entries.set(i, e);
        proof {
            let so_far = entries_marks(entries.take(i as int));
            let here = address_marks(entries[i as int].keys_array);
            assert(entries.take(i + 1).drop_last() =~= entries.take(i as int));
            assert(start.marked + (so_far + here) =~= (start.marked + so_far) + here);
        }
        i += 1;
    }
    let order = table_keys(&cache.overflow);
    let ghost first = entries_marks(entries);
    proof {
        assert(entries.take(i as int) =~= entries);
        assert(cache.inline_entries@ =~= old(cache)@.moved(start).inline_entries);
        assert(order@.take(0) =~= Seq::<u32>::empty());
        assert(first + Seq::<u64>::empty() =~= first);
    }
    let mut i: usize = 0;
    while i < order.len()
        invariant
            i <= order@.len(),
            enumerates(order@, map.dom()),
            cache.overflow@.dom() == map.dom(),
            cache.inline_entries@ == old(cache)@.moved(start).inline_entries,
            visitor@ == start.marking(first + overflow_marks(map, order@.take(i as int))),
            forall|j: int|
                0 <= j < i ==> #[trigger] cache.overflow@[order@[j]] == (CachedShape {
                    keys_array: start.moved(map[order@[j]].keys_array),
                    ..map[order@[j]]
                }),
            forall|j: int|
                i <= j < order@.len() ==> #[trigger] cache.overflow@[order@[j]]
                    == map[order@[j]],
        decreases order@.len() - i,
    {
        let id: u32 = order[i];
        assert(order@.to_set().contains(id));
        if let Some(mut s) = cache.overflow.remove(&id) {
            visitor.visit_usize_slot(&mut s.keys_array);
            cache.overflow.insert(id, s);
        }
        proof {
            let so_far = overflow_marks(map, order@.take(i as int));
            let here = address_marks(map[id].keys_array);
            assert(order@.take(i + 1).drop_last() =~= order@.take(i as int));
            assert(start.marked + (first + (so_far + here)) =~= (start.marked + (first + so_far))
                + here);
            assert(cache.overflow@.dom() =~= map.dom());
        }
        i += 1;
    }
    proof {
        assert(order@.take(i as int) =~= order@);
        assert forall|id: u32| #[trigger] map.contains_key(id) implies cache.overflow@[id] == (
        CachedShape { keys_array: start.moved(map[id].keys_array), ..map[id] }) by {
            assert(order@.to_set().contains(id));
            let j = choose|j: int| 0 <= j < order@.len() && order@[j] == id;
            assert(cache.overflow@[order@[j]] == cache.overflow@[id]);
        }
        assert(cache.overflow@ =~= old(cache)@.moved(start).overflow);
    }
}

/// Marks the cached keys arrays: the values to mark, in order.
pub fn scan_shape_cache_roots(cache: &mut ShapeCache) -> (marked: Vec<u64>)
    requires
        old(cache)@.wf(),
    ensures
        final(cache)@ == old(cache)@,
        exists|order: Seq<u32>|
            {
                &&& #[trigger] enumerates(order, old(cache)@.overflow.dom())
                &&& marked@ == entries_marks(old(cache)@.inline_entries) + overflow_marks(
                    old(cache)@.overflow,
                    order,
                )
            },
{
    let mut visitor = RuntimeRootVisitor::for_copy();
    let ghost start = visitor@;
    scan_shape_cache_roots_mut(cache, &mut visitor);
    proof {
        let c = old(cache)@;
        assert(c.moved(start).inline_entries =~= c.inline_entries);
        assert(c.moved(start).overflow =~= c.overflow);
        let order = choose|order: Seq<u32>|
            {
                &&& #[trigger] enumerates(order, c.overflow.dom())
                &&& visitor@ == start.marking(
                    entries_marks(c.inline_entries) + overflow_marks(c.overflow, order),
                )
            };
        assert(visitor@.marked =~= entries_marks(c.inline_entries) + overflow_marks(
            c.overflow,
            order,
        ));
    }
    visitor.marked
}

/// Puts a keys array into the cache as its only entry in the map. The id of
/// the direct-mapped entry stays as it is.
pub fn test_seed_shape_cache_root(
    cache: &mut ShapeCache,
    gc: &mut GcLog,
    shape_id: u32,
    keys_array: usize,
)
    requires
        old(cache)@.wf(),
    ensures
        final(cache)@.wf(),
        final(cache)@.inline_entries == old(cache)@.inline_entries.update(
            inline_slot(shape_id),
            ShapeCacheEntry {
                shape_id,
                keys_array,
                ..old(cache)@.inline_entries[inline_slot(shape_id)]
            },
        ),
        final(cache)@.overflow == Map::<u32, CachedShape>::empty().insert(
            shape_id,
            CachedShape { keys_array, runtime_shape_id: 0 },
        ),
        final(gc)@ == old(gc)@.push(GcEvent::RootStore { addr: keys_array }).push(
            GcEvent::RootBarrier { addr: keys_array },
        ),
{
    let slot = slot_of(shape_id);
    let e = cache.inline_entries[slot];
    cache.inline_entries.set(slot, ShapeCacheEntry { shape_id, keys_array, ..e });
    gc.report(GcEvent::RootStore { addr: keys_array });
    cache.overflow.clear();
    cache.overflow.insert(shape_id, CachedShape { keys_array, runtime_shape_id: 0 });
    gc.report(GcEvent::RootBarrier { addr: keys_array });
}

/// The keys arrays in the direct-mapped entry and in the map.
pub fn test_shape_cache_root(cache: &ShapeCache, shape_id: u32) -> (r: (usize, usize))
    requires
        cache@.wf(),
    ensures
        r.0 == cache@.inline_entries[inline_slot(shape_id)].keys_array,
        r.1 == (if cache@.overflow.contains_key(shape_id) {
            cache@.overflow[shape_id].keys_array
        } else {
            0
        }),
{
    let e = cache.inline_entries[slot_of(shape_id)];
    let in_map: usize = match cache.overflow.get(&shape_id) {
        Some(s) => s.keys_array,
        None => 0,
    };
    (e.keys_array, in_map)
}

// ---------------------------------------------------------------------------
// Laws
// ---------------------------------------------------------------------------
/// The direct-mapped array only speeds lookups up: each gives what the map
/// holds.
pub proof fn lookup_agrees_with_map(cache: ShapeCacheView, shape_id: u32)
    requires
        cache.coherent(),
    ensures
        cache.lookup(shape_id) == (if cache.overflow.contains_key(shape_id) {
            cache.overflow[shape_id]
        } else {
            no_shape()
        }),
{
    assert(0 <= inline_slot(shape_id) < SHAPE_INLINE_CACHE_SIZE);
}

/// What was inserted is found, and whatever else was cached is still found,
/// although its direct-mapped entry may have been taken.
pub proof fn insert_is_found_and_evicts_nothing(
    cache: ShapeCacheView,
    shape_id: u32,
    shape: CachedShape,
    other: u32,
)
    requires
        cache.coherent(),
    ensures
        cache.inserted(shape_id, shape).coherent(),
        cache.inserted(shape_id, shape).lookup(shape_id) == shape,
        other != shape_id ==> cache.inserted(shape_id, shape).lookup(other) == cache.lookup(other),
{
    let after = cache.inserted(shape_id, shape);
    assert forall|i: int| 0 <= i < SHAPE_INLINE_CACHE_SIZE implies ({
        let e = #[trigger] after.inline_entries[i];
        if inline_slot(e.shape_id) == i && after.overflow.contains_key(e.shape_id) {
            after.overflow[e.shape_id] == CachedShape {
                keys_array: e.keys_array,
                runtime_shape_id: e.runtime_shape_id,
            }
        } else {
            e == free_entry()
        }
    }) by {
        let e = cache.inline_entries[i];
        if i != inline_slot(shape_id) {
            assert(after.inline_entries[i] == e);
        }
    }
    lookup_agrees_with_map(cache, other);
    lookup_agrees_with_map(after, other);
    lookup_agrees_with_map(after, shape_id);
}

/// A moving collection keeps the cache coherent and moves what lookups give.
pub proof fn moved_cache_stays_coherent(cache: ShapeCacheView, visitor: VisitorView)
    requires
        cache.coherent(),
        visitor.moved(0) == 0,
    ensures
        cache.moved(visitor).coherent(),
        forall|shape_id: u32| #[trigger]
            cache.moved(visitor).lookup(shape_id).keys_array == visitor.moved(
                cache.lookup(shape_id).keys_array,
            ),
        forall|shape_id: u32| #[trigger]
            cache.moved(visitor).lookup(shape_id).runtime_shape_id == cache.lookup(
                shape_id,
            ).runtime_shape_id,
{
    let after = cache.moved(visitor);
    assert forall|i: int| 0 <= i < SHAPE_INLINE_CACHE_SIZE implies ({
        let e = #[trigger] after.inline_entries[i];
        if inline_slot(e.shape_id) == i && after.overflow.contains_key(e.shape_id) {
            after.overflow[e.shape_id] == CachedShape {
                keys_array: e.keys_array,
                runtime_shape_id: e.runtime_shape_id,
            }
        } else {
            e == free_entry()
        }
    }) by {
        let e = cache.inline_entries[i];
    }
    assert forall|shape_id: u32| true implies ({
        &&& #[trigger] after.lookup(shape_id).keys_array == visitor.moved(
            cache.lookup(shape_id).keys_array,
        )
        &&& after.lookup(shape_id).runtime_shape_id == cache.lookup(shape_id).runtime_shape_id
    }) by {
        lookup_agrees_with_map(cache, shape_id);
        lookup_agrees_with_map(after, shape_id);
    }
}

proof fn lemma_entry_is_marked(entries: Seq<ShapeCacheEntry>, i: int)
    requires
        0 <= i < entries.len(),
        entries[i].keys_array != 0,
    ensures
        entries_marks(entries).contains(boxed(POINTER_TAG, entries[i].keys_array)),
    decreases entries.len(),
{
    let bits = boxed(POINTER_TAG, entries[i].keys_array);
    let rest = entries_marks(entries.drop_last());
    let here = address_marks(entries.last().keys_array);
    if i < entries.len() - 1 {
        lemma_entry_is_marked(entries.drop_last(), i);
    } else {
        assert(here[0] == bits);
    }
    lemma_in_either(rest, here, bits);
}

proof fn lemma_id_is_marked(map: Map<u32, CachedShape>, order: Seq<u32>, i: int)
    requires
        0 <= i < order.len(),
        map[order[i]].keys_array != 0,
    ensures
        overflow_marks(map, order).contains(boxed(POINTER_TAG, map[order[i]].keys_array)),
    decreases order.len(),
{
    let bits = boxed(POINTER_TAG, map[order[i]].keys_array);
    let rest = overflow_marks(map, order.drop_last());
    let here = address_marks(map[order.last()].keys_array);
    if i < order.len() - 1 {
        lemma_id_is_marked(map, order.drop_last(), i);
    } else {
        assert(here[0] == bits);
    }
    lemma_in_either(rest, here, bits);
}

/// A marking scan keeps every cached keys array alive, whatever the order in
/// which the map is walked.
pub proof fn every_cached_array_is_marked(
    cache: ShapeCacheView,
    order: Seq<u32>,
    slot: int,
    shape_id: u32,
)
    requires
        enumerates(order, cache.overflow.dom()),
        0 <= slot < cache.inline_entries.len(),
        cache.overflow.contains_key(shape_id),
    ensures
        ({
            let marks = entries_marks(cache.inline_entries) + overflow_marks(
                cache.overflow,
                order,
            );
            let direct = cache.inline_entries[slot].keys_array;
            let filed = cache.overflow[shape_id].keys_array;
            &&& direct != 0 ==> marks.contains(boxed(POINTER_TAG, direct))
            &&& filed != 0 ==> marks.contains(boxed(POINTER_TAG, filed))
        }),
{
    let a = entries_marks(cache.inline_entries);
    let b = overflow_marks(cache.overflow, order);
    let direct = cache.inline_entries[slot].keys_array;
    let filed = cache.overflow[shape_id].keys_array;
    if direct != 0 {
        lemma_entry_is_marked(cache.inline_entries, slot);
        lemma_in_either(a, b, boxed(POINTER_TAG, direct));
    }
    if filed != 0 {
        assert(order.to_set().contains(shape_id));
        let i = choose|i: int| 0 <= i < order.len() && order[i] == shape_id;
        lemma_id_is_marked(cache.overflow, order, i);
        lemma_in_either(a, b, boxed(POINTER_TAG, filed));
    }
}

/// A marking scan marks the cached keys arrays and nothing else: first those in
/// the direct-mapped entries, then those in the map.
pub proof fn cached_arrays_are_marked_in_turn(
    entries: Seq<ShapeCacheEntry>,
    map: Map<u32, CachedShape>,
    order: Seq<u32>,
)
    ensures
        entries_marks(entries) == references_to(
            entries.map_values(|e: ShapeCacheEntry| e.keys_array),
        ),
        overflow_marks(map, order) == references_to(
            order.map_values(|id: u32| map[id].keys_array),
        ),
    decreases entries.len() + order.len(),
{
    let addrs = entries.map_values(|e: ShapeCacheEntry| e.keys_array);
    let filed = order.map_values(|id: u32| map[id].keys_array);
    lemma_one_more_reference(Seq::empty(), 0);
    if entries.len() > 0 {
        let rest = entries.drop_last();
        cached_arrays_are_marked_in_turn(rest, map, order);
        lemma_one_more_reference(
            rest.map_values(|e: ShapeCacheEntry| e.keys_array),
            entries.last().keys_array,
        );
        assert(addrs =~= rest.map_values(|e: ShapeCacheEntry| e.keys_array).push(
            entries.last().keys_array,
        ));
    } else {
        assert(addrs =~= Seq::<usize>::empty());
        if order.len() > 0 {
            let rest = order.drop_last();
            cached_arrays_are_marked_in_turn(entries, map, rest);
            lemma_one_more_reference(
                rest.map_values(|id: u32| map[id].keys_array),
                map[order.last()].keys_array,
            );
            assert(filed =~= rest.map_values(|id: u32| map[id].keys_array).push(
                map[order.last()].keys_array,
            ));
        } else {
            assert(filed =~= Seq::<usize>::empty());
        }
    }
}

/// An empty cache gives nothing for any shape, and each shape is looked for in
/// the entry that its low byte names.
pub proof fn empty_cache_gives_nothing(cache: ShapeCacheView, shape_id: u32)
    requires
        cache.coherent(),
        cache.overflow.dom() =~= Set::<u32>::empty(),
    ensures
        cache.lookup(shape_id).keys_array == 0,
        cache.lookup(shape_id).runtime_shape_id == 0,
        inline_slot(shape_id) == shape_id % 256,
{
    lookup_agrees_with_map(cache, shape_id);
}

} // verus!
