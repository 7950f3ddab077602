//! Where an object goes when it gets one more key.
//!
//! An edge says: an object with this keys array that gets this key has that
//! keys array afterwards, and the value goes to that slot. The cache is
//! direct-mapped and its entries are complete, so a collision costs a miss.
//! The first two words of an edge are plain addresses that keep nothing alive;
//! since an address may have been recycled, a hit is believed only after the
//! target array was seen to hold the key.

use vstd::prelude::*;

use crate::gc::{
    address_marks, lemma_in_either, lemma_one_more_reference, references_to, GcEvent, GcLog,
    RuntimeRootVisitor, VisitorView,
};
use crate::heap::{array_at, shared, string_at, Cells, GcHeader, Heap};
use crate::keys::{
    array_get, js_array_get, js_string_key_matches, key_bytes, key_matches,
    lemma_headers_do_not_matter,
};
use crate::value::{boxed, POINTER_TAG};

verus! {

pub const TRANSITION_CACHE_SIZE: usize = 16384;

/// Edges below this slot share their target at once: otherwise the object that
/// made the target would grow it in place and spoil the edge. Wider shapes are
/// shared when they are first reused, so that a one-off dictionary does not
/// clone each of its prefixes.
pub const TRANSITION_CACHE_EAGER_SHARE_MAX_SLOT: u32 = 64;

/// An edge. `prev_keys` is zero for an object without keys; `key_ptr` is the
/// address of the interned key. A free entry has a zero target.
#[derive(Clone, Copy, PartialEq, Eq, Structural, Debug)]
pub struct TransitionEntry {
    pub prev_keys: usize,
    pub key_ptr: usize,
    pub next_keys: usize,
    pub slot_idx: u32,
    /// Length of the target, if it was shared and of the right length when the
    /// edge was made; else zero.
    pub target_len: u32,
}

#[derive(Debug)]
pub struct TransitionCache {
    pub entries: Vec<TransitionEntry>,
}

impl View for TransitionCache {
    type V = Seq<TransitionEntry>;

    open spec fn view(&self) -> Seq<TransitionEntry> {
        self.entries@
    }
}

pub open spec fn no_edge() -> TransitionEntry {
    TransitionEntry { prev_keys: 0, key_ptr: 0, next_keys: 0, slot_idx: 0, target_len: 0 }
}

fn free_entry() -> (r: TransitionEntry)
    ensures
        r == no_edge(),
{
    TransitionEntry { prev_keys: 0, key_ptr: 0, next_keys: 0, slot_idx: 0, target_len: 0 }
}

/// A cache without edges.
pub open spec fn no_edges() -> Seq<TransitionEntry> {
    Seq::new(TRANSITION_CACHE_SIZE as nat, |i: int| no_edge())
}

impl TransitionCache {
    pub open spec fn wf(self) -> bool {
        self@.len() == TRANSITION_CACHE_SIZE
    }

    pub fn new() -> (r: TransitionCache)
        ensures
            r.wf(),
            r@ == no_edges(),
    {
        let r = TransitionCache { entries: vec![free_entry(); TRANSITION_CACHE_SIZE] };
        assert(r@ =~= no_edges());
        r
    }
}

/// The entry that an edge maps to: both addresses, without their alignment
/// bits, are spread by a multiplication modulo 2^64 and mixed.
pub open spec fn transition_slot(prev_keys: usize, key_ptr: usize) -> int {
    (((prev_keys >> 3) as u64).wrapping_mul(0x9E3779B97F4A7C15) ^ ((key_ptr >> 3)
        as u64).wrapping_mul(0xC6BC279692B5C323)) as int % TRANSITION_CACHE_SIZE as int
}

pub fn transition_cache_slot(prev_keys: usize, key_ptr: usize) -> (r: usize)
    ensures
        r == transition_slot(prev_keys, key_ptr),
        r < TRANSITION_CACHE_SIZE,
{
    let mixed: u64 = ((prev_keys >> 3) as u64).wrapping_mul(0x9E3779B97F4A7C15) ^ ((key_ptr >> 3)
        as u64).wrapping_mul(0xC6BC279692B5C323);
    (mixed % TRANSITION_CACHE_SIZE as u64) as usize
}

/// Does the array at `next_keys` really have the key last, at `slot_idx`? The
/// length is compared exactly, so a target that was grown in place since is
/// refused too.
pub open spec fn edge_places_key(cells: Cells, next_keys: usize, slot_idx: u32, key: usize) -> bool {
    &&& array_at(cells, next_keys) is Some
    &&& array_at(cells, next_keys)->0.length == slot_idx + 1
    &&& key_matches(cells, array_get(cells, next_keys, slot_idx), key)
}

pub fn transition_edge_places_key(heap: &Heap, next_keys: usize, slot_idx: u32, key: usize) -> (r:
    bool)
    requires
        heap.wf(),
    ensures
        r == edge_places_key(heap@, next_keys, slot_idx, key),
{
    match heap.array(next_keys) {
        None => false,
        Some(keys) => {
            if slot_idx == u32::MAX || keys.length != slot_idx + 1 {
                return false;
            }
            let stored = js_array_get(heap, next_keys, slot_idx);
            js_string_key_matches(heap, stored, key)
        },
    }
}

/// Marks a keys array as shared; false when there is no array.
pub fn transition_cache_stamp_shape_shared(heap: &mut Heap, next_keys: usize) -> (r: bool)
    requires
        old(heap).wf(),
    ensures
        final(heap).wf(),
        final(heap).frontier() == old(heap).frontier(),
        r == (array_at(old(heap)@, next_keys) is Some),
        final(heap)@ == (if r {
            shared(old(heap)@, next_keys)
        } else {
            old(heap)@
        }),
{
    if heap.array(next_keys).is_none() {
        return false;
    }
    match heap.gc_header(next_keys) {
        None => false,
        Some(gc) => {
            heap.set_gc_header(next_keys, GcHeader { shape_shared: true, ..gc });
            true
        },
    }
}

/// The edge of the cache for this array and key, if the target holds the key.
pub open spec fn believed_edge(
    entries: Seq<TransitionEntry>,
    cells: Cells,
    prev_keys: usize,
    key: usize,
) -> Option<TransitionEntry> {
    let e = entries[transition_slot(prev_keys, key)];
    if e.next_keys != 0 && e.prev_keys == prev_keys && e.key_ptr == key && edge_places_key(
        cells,
        e.next_keys,
        e.slot_idx,
        key,
    ) {
        Some(e)
    } else {
        None
    }
}

/// The target and slot that a lookup gives.
pub open spec fn transition_hit(
    entries: Seq<TransitionEntry>,
    cells: Cells,
    prev_keys: usize,
    key: usize,
) -> Option<(usize, u32)> {
    match believed_edge(entries, cells, prev_keys, key) {
        None => None,
        Some(e) => {
            let target = array_at(cells, e.next_keys)->0;
            if e.target_len == e.slot_idx + 1 || target.length <= target.capacity {
                Some((e.next_keys, e.slot_idx))
            } else {
                None
            }
        },
    }
}

/// The cells after a lookup: a target that was not shared when its edge was
/// made is shared now, for a second object is about to use it.
pub open spec fn transition_shared(
    entries: Seq<TransitionEntry>,
    cells: Cells,
    prev_keys: usize,
    key: usize,
) -> Cells {
    match believed_edge(entries, cells, prev_keys, key) {
        None => cells,
        Some(e) => if e.target_len == e.slot_idx + 1 {
            cells
        } else {
            shared(cells, e.next_keys)
        },
    }
}

/// Looks up where an object with `prev_keys` goes when it gets the key that is
/// interned at `interned_key`: the keys array to adopt and the slot.
pub fn transition_cache_lookup(
    cache: &TransitionCache,
    heap: &mut Heap,
    prev_keys: usize,
    interned_key: usize,
) -> (r: Option<(usize, u32)>)
    requires
        cache.wf(),
        old(heap).wf(),
    ensures
        final(heap).wf(),
        final(heap).frontier() == old(heap).frontier(),
        r == transition_hit(cache@, old(heap)@, prev_keys, interned_key),
        final(heap)@ == transition_shared(cache@, old(heap)@, prev_keys, interned_key),
        r matches Some((next_keys, slot)) ==> edge_places_key(
            old(heap)@,
            next_keys,
            slot,
            interned_key,
        ),
{
    let slot = transition_cache_slot(prev_keys, interned_key);
    let entry = cache.entries[slot];
    if entry.next_keys == 0 || entry.prev_keys != prev_keys || entry.key_ptr != interned_key {
        return None;
    }
    if !transition_edge_places_key(heap, entry.next_keys, entry.slot_idx, interned_key) {
        return None;
    }
    let expected_len: u32 = entry.slot_idx + 1;
    if entry.target_len == expected_len {
        return Some((entry.next_keys, entry.slot_idx));
    }
    if !transition_cache_stamp_shape_shared(heap, entry.next_keys) {
        return None;
    }
    match heap.array(entry.next_keys) {
        None => None,
        Some(keys) => if keys.length != expected_len || keys.length > keys.capacity {
            None
        } else {
            Some((entry.next_keys, entry.slot_idx))
        },
    }
}

/// Is the target of an edge shared as soon as the edge is made?
pub open spec fn shares_eagerly(cells: Cells, next_keys: usize, slot_idx: u32) -> bool {
    slot_idx < TRANSITION_CACHE_EAGER_SHARE_MAX_SLOT && array_at(cells, next_keys) is Some
}

/// The length that a new edge vouches for.
pub open spec fn vouched_len(cells: Cells, next_keys: usize, slot_idx: u32) -> u32 {
    let target = array_at(cells, next_keys)->0;
    if shares_eagerly(cells, next_keys, slot_idx) && target.length == slot_idx + 1
        && target.length <= target.capacity {
        target.length
    } else {
        0
    }
}

/// The cache with one more edge.
pub open spec fn edge_added(
    entries: Seq<TransitionEntry>,
    cells: Cells,
    prev_keys: usize,
    key: usize,
    next_keys: usize,
    slot_idx: u32,
) -> Seq<TransitionEntry> {
    if next_keys == 0 {
        entries
    } else {
        entries.update(
            transition_slot(prev_keys, key),
            TransitionEntry {
                prev_keys,
                key_ptr: key,
                next_keys,
                slot_idx,
                target_len: vouched_len(cells, next_keys, slot_idx),
            },
        )
    }
}

/// The cells after an edge was added.
pub open spec fn edge_shared(cells: Cells, next_keys: usize, slot_idx: u32) -> Cells {
    if next_keys != 0 && shares_eagerly(cells, next_keys, slot_idx) {
        shared(cells, next_keys)
    } else {
        cells
    }
}

/// Remembers an edge, in the place of whatever its entry held.
pub fn transition_cache_insert(
    cache: &mut TransitionCache,
    heap: &mut Heap,
    gc: &mut GcLog,
    prev_keys: usize,
    interned_key: usize,
    next_keys: usize,
    slot_idx: u32,
)
    requires
        old(cache).wf(),
        old(heap).wf(),
    ensures
        final(cache).wf(),
        final(heap).wf(),
        final(heap).frontier() == old(heap).frontier(),
        final(cache)@ == edge_added(
            old(cache)@,
            old(heap)@,
            prev_keys,
            interned_key,
            next_keys,
            slot_idx,
        ),
        final(heap)@ == edge_shared(old(heap)@, next_keys, slot_idx),
        final(gc)@ == (if next_keys == 0 {
            old(gc)@
        } else {
            old(gc)@.push(GcEvent::RootStore { addr: next_keys })
        }),
{
    if next_keys == 0 {
        return;
    }
    let slot = transition_cache_slot(prev_keys, interned_key);
    let mut target_len: u32 = 0;
    if slot_idx < TRANSITION_CACHE_EAGER_SHARE_MAX_SLOT && transition_cache_stamp_shape_shared(
        heap,
        next_keys,
    ) {
        let expected_len: u32 = slot_idx + 1;
        if let Some(keys) = heap.array(next_keys) {
            if keys.length == expected_len && keys.length <= keys.capacity {
                target_len = expected_len;
            }
        }
    }
    cache.entries.set(
        slot,
        TransitionEntry { prev_keys, key_ptr: interned_key, next_keys, slot_idx, target_len },
    );
    gc.report(GcEvent::RootStore { addr: next_keys });
}

/// What the targets of the edges add to the marked values.
pub open spec fn targets_marks(entries: Seq<TransitionEntry>) -> Seq<u64>
    decreases entries.len(),
{
    if entries.len() == 0 {
        Seq::empty()
    } else {
        targets_marks(entries.drop_last()) + address_marks(entries.last().next_keys)
    }
}

/// An edge after a walk. Its entry is found by the first two words, so an edge
/// of which one of them moved is forgotten.
pub open spec fn moved_edge(e: TransitionEntry, visitor: VisitorView) -> TransitionEntry {
    if e.next_keys == 0 {
        e
    } else if visitor.moved(e.prev_keys) != e.prev_keys || visitor.moved(e.key_ptr) != e.key_ptr {
        no_edge()
    } else {
        TransitionEntry { next_keys: visitor.moved(e.next_keys), ..e }
    }
}

/// Walks the edges: the targets are roots, the other two words follow what
/// they name.
pub fn scan_transition_cache_roots_mut(
    cache: &mut TransitionCache,
    visitor: &mut RuntimeRootVisitor,
)
    requires
        old(cache).wf(),
    ensures
        final(cache).wf(),
        final(cache)@ == old(cache)@.map_values(
            |e: TransitionEntry| moved_edge(e, old(visitor)@),
        ),
        final(visitor)@ == old(visitor)@.marking(targets_marks(old(cache)@)),
{
    let ghost before = cache@;
    let ghost start = visitor@;
    proof {
        assert(before.take(0) =~= Seq::<TransitionEntry>::empty());
        assert(start.marked + Seq::<u64>::empty() =~= start.marked);
    }
    let mut i: usize = 0;
    while i < cache.entries.len()
        invariant
            i <= before.len(),
            cache@.len() == before.len(),
            visitor@ == start.marking(targets_marks(before.take(i as int))),
            forall|j: int| 0 <= j < i ==> #[trigger] cache@[j] == moved_edge(before[j], start),
            forall|j: int| i <= j < before.len() ==> #[trigger] cache@[j] == before[j],
        decreases before.len() - i,
    {
        let mut entry = cache.entries[i];
        if entry.next_keys != 0 {
            let prev_moved = visitor.visit_metadata_usize_slot(&mut entry.prev_keys);
            let key_moved = visitor.visit_metadata_usize_slot(&mut entry.key_ptr);
            let _ = visitor.visit_usize_slot(&mut entry.next_keys);
            if prev_moved || key_moved {
                entry = free_entry();
            }
            cache.entries.set(i, entry);
        }
        proof {
            let so_far = targets_marks(before.take(i as int));
            let here = address_marks(before[i as int].next_keys);
            assert(before.take(i + 1).drop_last() =~= before.take(i as int));
            assert(start.marked + (so_far + here) =~= (start.marked + so_far) + here);
        }
        i += 1;
    }
    proof {
        assert(before.take(i as int) =~= before);
        assert(cache@ =~= before.map_values(|e: TransitionEntry| moved_edge(e, start)));
    }
}

/// Marks the targets of the edges: the values to mark, in order.
pub fn scan_transition_cache_roots(cache: &mut TransitionCache) -> (marked: Vec<u64>)
    requires
        old(cache).wf(),
    ensures
        final(cache)@ == old(cache)@,
        marked@ == targets_marks(old(cache)@),
{
    let mut visitor = RuntimeRootVisitor::for_copy();
    let ghost start = visitor@;
    scan_transition_cache_roots_mut(cache, &mut visitor);
    proof {
        assert(cache@ =~= old(cache)@);
        assert(visitor@.marked =~= targets_marks(old(cache)@));
    }
    visitor.marked
}

/// Makes the first entry an edge to `next_keys`.
pub fn test_seed_transition_cache_root(
    cache: &mut TransitionCache,
    gc: &mut GcLog,
    next_keys: usize,
)
    requires
        old(cache).wf(),
    ensures
        final(cache).wf(),
        final(cache)@ == old(cache)@.update(0, TransitionEntry { next_keys, ..no_edge() }),
        final(gc)@ == old(gc)@.push(GcEvent::RootStore { addr: next_keys }),
{
    cache.entries.set(0, TransitionEntry { next_keys, ..free_entry() });
    gc.report(GcEvent::RootStore { addr: next_keys });
}

/// The target of the first entry.
pub fn test_transition_cache_root(cache: &TransitionCache) -> (r: usize)
    requires
        cache.wf(),
    ensures
        r == cache@[0].next_keys,
{
    cache.entries[0].next_keys
}

/// Forgets all edges.
pub fn test_clear_transition_cache_root(cache: &mut TransitionCache)
    requires
        old(cache).wf(),
    ensures
        final(cache).wf(),
        final(cache)@ == no_edges(),
{
    let mut i: usize = 0;
    while i < cache.entries.len()
        invariant
            i <= cache@.len(),
            cache@.len() == TRANSITION_CACHE_SIZE,
            forall|j: int| 0 <= j < i ==> #[trigger] cache@[j] == no_edge(),
        decreases cache@.len() - i,
    {
        cache.entries.set(i, free_entry());
        i += 1;
    }
    assert(cache@ =~= no_edges());
}

// ---------------------------------------------------------------------------
// Laws
// ---------------------------------------------------------------------------
/// An edge that was just added is found, if its target does hold the key.
pub proof fn added_edge_is_found(
    entries: Seq<TransitionEntry>,
    cells: Cells,
    prev_keys: usize,
    key: usize,
    next_keys: usize,
    slot_idx: u32,
)
    requires
        entries.len() == TRANSITION_CACHE_SIZE,
        next_keys != 0,
        edge_places_key(cells, next_keys, slot_idx, key),
        array_at(cells, next_keys)->0.length <= array_at(cells, next_keys)->0.capacity,
    ensures
        transition_hit(
            edge_added(entries, cells, prev_keys, key, next_keys, slot_idx),
            edge_shared(cells, next_keys, slot_idx),
            prev_keys,
            key,
        ) == Some((next_keys, slot_idx)),
{
    lemma_headers_do_not_matter(
        cells,
        next_keys,
        GcHeader { shape_shared: true, ..cells[next_keys].gc },
    );
}

/// A target whose length an edge vouches for is shared.
pub open spec fn vouched_targets_shared(entries: Seq<TransitionEntry>, cells: Cells) -> bool {
    forall|i: int|
        0 <= i < entries.len() && (#[trigger] entries[i]).target_len != 0 ==> {
            &&& cells.contains_key(entries[i].next_keys)
            &&& cells[entries[i].next_keys].gc.shape_shared
        }
}

/// Whoever adopts the target of an edge shares it: after a hit the array is
/// marked, and lookups and new edges keep it so for every edge that vouches
/// for its target.
pub proof fn adopted_targets_are_shared(
    entries: Seq<TransitionEntry>,
    cells: Cells,
    prev_keys: usize,
    key: usize,
    next_keys: usize,
    slot_idx: u32,
)
    requires
        entries.len() == TRANSITION_CACHE_SIZE,
        vouched_targets_shared(entries, cells),
    ensures
        transition_hit(entries, cells, prev_keys, key) matches Some((target, _)) ==> {
            let after = transition_shared(entries, cells, prev_keys, key);
            after.contains_key(target) && after[target].gc.shape_shared
        },
        vouched_targets_shared(entries, transition_shared(entries, cells, prev_keys, key)),
        vouched_targets_shared(
            edge_added(entries, cells, prev_keys, key, next_keys, slot_idx),
            edge_shared(cells, next_keys, slot_idx),
        ),
{
    let at = transition_slot(prev_keys, key);
    assert(0 <= at < entries.len());
    assert(entries[at].target_len != 0 ==> cells[entries[at].next_keys].gc.shape_shared);
}

/// A new edge leaves the edges in other entries as they were.
pub proof fn added_edge_evicts_one(
    entries: Seq<TransitionEntry>,
    cells: Cells,
    prev_keys: usize,
    key: usize,
    next_keys: usize,
    slot_idx: u32,
    other_prev: usize,
    other_key: usize,
)
    requires
        entries.len() == TRANSITION_CACHE_SIZE,
        transition_slot(other_prev, other_key) != transition_slot(prev_keys, key),
    ensures
        transition_hit(
            edge_added(entries, cells, prev_keys, key, next_keys, slot_idx),
            edge_shared(cells, next_keys, slot_idx),
            other_prev,
            other_key,
        ) == transition_hit(entries, cells, other_prev, other_key),
{
    assert(0 <= transition_slot(prev_keys, key) < entries.len());
    assert(0 <= transition_slot(other_prev, other_key) < entries.len());
    if shares_eagerly(cells, next_keys, slot_idx) {
        lemma_headers_do_not_matter(
            cells,
            next_keys,
            GcHeader { shape_shared: true, ..cells[next_keys].gc },
        );
    }
}

/// After a walk no edge names an array or a key that has moved away.
pub proof fn moved_edges_are_forgotten(
    entries: Seq<TransitionEntry>,
    visitor: VisitorView,
    i: int,
)
    requires
        0 <= i < entries.len(),
    ensures
        ({
            let after = entries.map_values(|e: TransitionEntry| moved_edge(e, visitor));
            after[i].next_keys != 0 ==> {
                &&& visitor.moved(after[i].prev_keys) == after[i].prev_keys
                &&& visitor.moved(after[i].key_ptr) == after[i].key_ptr
                &&& after[i].next_keys == visitor.moved(entries[i].next_keys)
            }
        }),
{
}

/// A marking scan keeps the target of every edge alive.
pub proof fn every_target_is_marked(entries: Seq<TransitionEntry>, i: int)
    requires
        0 <= i < entries.len(),
        entries[i].next_keys != 0,
    ensures
        targets_marks(entries).contains(boxed(POINTER_TAG, entries[i].next_keys)),
    decreases entries.len(),
{
    let bits = boxed(POINTER_TAG, entries[i].next_keys);
    let rest = targets_marks(entries.drop_last());
    let here = address_marks(entries.last().next_keys);
    if i < entries.len() - 1 {
        every_target_is_marked(entries.drop_last(), i);
    } else {
        assert(here[0] == bits);
    }
    lemma_in_either(rest, here, bits);
}

/// A marking scan marks the targets of the edges, in their order, and nothing
/// else.
pub proof fn targets_are_marked_in_turn(entries: Seq<TransitionEntry>)
    ensures
        targets_marks(entries) == references_to(
            entries.map_values(|e: TransitionEntry| e.next_keys),
        ),
    decreases entries.len(),
{
    let addrs = entries.map_values(|e: TransitionEntry| e.next_keys);
    lemma_one_more_reference(Seq::empty(), 0);
    if entries.len() > 0 {
        let rest = entries.drop_last();
        targets_are_marked_in_turn(rest);
        lemma_one_more_reference(
            rest.map_values(|e: TransitionEntry| e.next_keys),
            entries.last().next_keys,
        );
        assert(addrs =~= rest.map_values(|e: TransitionEntry| e.next_keys).push(
            entries.last().next_keys,
        ));
    } else {
        assert(addrs =~= Seq::<usize>::empty());
    }
}

/// A hit is an edge that was remembered for this array and this key, and its
/// target does have the key, last of all.
pub proof fn hits_lead_to_the_key(
    entries: Seq<TransitionEntry>,
    cells: Cells,
    prev_keys: usize,
    key: usize,
)
    requires
        entries.len() == 16384,
        transition_hit(entries, cells, prev_keys, key) is Some,
    ensures
        ({
            let (to, slot) = transition_hit(entries, cells, prev_keys, key)->0;
            &&& exists|i: int|
                0 <= i < entries.len() && (#[trigger] entries[i]).prev_keys == prev_keys
                    && entries[i].key_ptr == key && entries[i].next_keys == to
                    && entries[i].slot_idx == slot
            &&& to != 0
            &&& array_at(cells, to) is Some
            &&& array_at(cells, to)->0.length == slot + 1
            &&& string_at(cells, key) is Some
            &&& key_bytes(cells, array_get(cells, to, slot)) == string_at(cells, key)
        }),
{
    let e = entries[transition_slot(prev_keys, key)];
    assert(0 <= transition_slot(prev_keys, key) < 16384);
}

/// The target of a new edge is shared at once if the edge is for one of the first
/// sixty-four slots, and else when it is first reused. Nothing else changes.
pub proof fn narrow_edges_share_their_target(
    cells: Cells,
    next_keys: usize,
    slot_idx: u32,
    addr: usize,
)
    requires
        addr != next_keys,
        next_keys != 0,
    ensures
        ({
            let after = edge_shared(cells, next_keys, slot_idx);
            &&& slot_idx < 64 && array_at(cells, next_keys) is Some
                ==> after[next_keys].gc.shape_shared
            &&& slot_idx >= 64 || array_at(cells, next_keys) is None ==> after == cells
            &&& array_at(after, next_keys) == array_at(cells, next_keys)
            &&& after.contains_key(addr) == cells.contains_key(addr)
            &&& after[addr] == cells[addr]
        }),
{
}

/// An edge of which no end moved stays, and its target is followed; an edge of
/// which one did is forgotten.
pub proof fn edges_follow_their_target(e: TransitionEntry, visitor: VisitorView)
    ensures
        ({
            let after = moved_edge(e, visitor);
            let kept = visitor.moved(e.prev_keys) == e.prev_keys && visitor.moved(e.key_ptr)
                == e.key_ptr;
            &&& e.next_keys == 0 ==> after == e
            &&& e.next_keys != 0 && kept ==> {
                &&& after.prev_keys == e.prev_keys
                &&& after.key_ptr == e.key_ptr
                &&& after.slot_idx == e.slot_idx
                &&& after.target_len == e.target_len
                &&& after.next_keys == visitor.moved(e.next_keys)
            }
            &&& e.next_keys != 0 && !kept ==> after.next_keys == 0
        }),
{
}

} // verus!
