//! Making and extending keys arrays.

use vstd::prelude::*;

use crate::heap::{
    array_at, array_pushed, fresh_header, frontier_after, outgrown, with_array, ArrayHeader,
    ArrayView, CellView, Cells, EntryView, Heap, HeapCell, ARRAY_HEADER_SIZE, GC_HEADER_SIZE,
};
use crate::shapes::{keys_grown, shape_keys_grown, ShapeTable};
use crate::value::TAG_UNDEFINED;

verus! {

/// An array with these elements and room for `capacity`.
pub open spec fn array_of(elements: Seq<u64>, capacity: int) -> ArrayView {
    ArrayView {
        length: elements.len() as u32,
        capacity: capacity as u32,
        forward: 0,
        slots: Seq::new(
            capacity as nat,
            |i: int|
                if i < elements.len() {
                    elements[i]
                } else {
                    TAG_UNDEFINED
                },
        ),
    }
}

/// `array` as a cell that was just allocated.
pub open spec fn fresh_array(array: ArrayView) -> EntryView {
    EntryView { gc: fresh_header(), cell: CellView::Array(array) }
}

/// Room on the heap that an array takes.
pub open spec fn array_room(capacity: int) -> int {
    GC_HEADER_SIZE + ARRAY_HEADER_SIZE + 8 * capacity
}

/// Allocates an array with these elements and room for `capacity`.
pub fn array_from(heap: &mut Heap, elements: &Vec<u64>, capacity: u32) -> (addr: usize)
    requires
        old(heap).wf(),
        elements@.len() <= capacity,
        array_room(capacity as int) <= old(heap).room(),
    ensures
        final(heap).wf(),
        addr == old(heap).next_cell(),
        !old(heap)@.contains_key(addr),
        final(heap)@ == old(heap)@.insert(
            addr,
            fresh_array(array_of(elements@, capacity as int)),
        ),
        final(heap).room() == old(heap).room() - array_room(capacity as int),
        final(heap).frontier() == frontier_after(
            old(heap).frontier(),
            CellView::Array(array_of(elements@, capacity as int)),
        ),
{
    let ghost view = array_of(elements@, capacity as int);
    let mut slots: Vec<u64> = Vec::new();
    let mut i: u32 = 0;
    while i < capacity
        invariant
            i <= capacity,
            elements@.len() <= capacity,
            view == array_of(elements@, capacity as int),
            slots@ =~= view.slots.take(i as int),
        decreases capacity - i,
    {
        if (i as usize) < elements.len() {
            slots.push(elements[i as usize]);
        } else {
            slots.push(TAG_UNDEFINED);
        }
        i += 1;
    }
    let length: u32 = elements.len() as u32;
    let a = ArrayHeader { length, capacity, forward: 0, slots };
    proof {
        assert(a@.slots =~= view.slots);
        assert(a@ == view);
    }
    heap.allocate(HeapCell::Array(a), ARRAY_HEADER_SIZE + 8 * capacity as usize)
}

/// Allocates an empty array with room for `capacity` elements.
pub fn js_array_alloc(heap: &mut Heap, capacity: u32) -> (addr: usize)
    requires
        old(heap).wf(),
        array_room(capacity as int) <= old(heap).room(),
    ensures
        final(heap).wf(),
        addr == old(heap).next_cell(),
        !old(heap)@.contains_key(addr),
        final(heap)@ == old(heap)@.insert(
            addr,
            fresh_array(array_of(Seq::empty(), capacity as int)),
        ),
        final(heap).room() == old(heap).room() - array_room(capacity as int),
{
    let none: Vec<u64> = Vec::new();
    assert(none@ =~= Seq::<u64>::empty());
    array_from(heap, &none, capacity)
}

/// The elements of a keys array; none for no array.
pub open spec fn elements(cells: Cells, keys: usize) -> Seq<u64> {
    match array_at(cells, keys) {
        Some(a) => a.slots.take(a.length as int),
        None => Seq::empty(),
    }
}

/// Capacity of an array that is made to be extended from `len` elements.
pub open spec fn roomy(len: int) -> int {
    2 * len + 4
}

/// Can `keys` be extended? No array can, and so can one that is in use and as
/// long as it claims.
pub open spec fn extensible(cells: Cells, keys: usize) -> bool {
    keys == 0 || (array_at(cells, keys) is Some && array_at(cells, keys)->0.forward == 0
        && array_at(cells, keys)->0.length <= array_at(cells, keys)->0.capacity)
}

/// Where an array with one more element is: in the same place if it is owned
/// and has spare capacity, else in a new one.
pub open spec fn extended_addr(cells: Cells, next_cell: usize, keys: usize) -> usize {
    if keys != 0 && !cells[keys].gc.shape_shared && array_at(cells, keys)->0.length < array_at(
        cells,
        keys,
    )->0.capacity {
        keys
    } else {
        next_cell
    }
}

/// The cells after `bits` was appended to `keys`. A shared array stays as it
/// is; an owned one that was outgrown points to its replacement.
pub open spec fn extended(cells: Cells, next_cell: usize, keys: usize, bits: u64) -> Cells {
    let list = elements(cells, keys);
    let copied = cells.insert(
        next_cell,
        fresh_array(array_of(list.push(bits), roomy(list.len() as int))),
    );
    if keys == 0 || cells[keys].gc.shape_shared {
        copied
    } else if array_at(cells, keys)->0.length < array_at(cells, keys)->0.capacity {
        with_array(cells, keys, array_pushed(array_at(cells, keys)->0, bits))
    } else {
        with_array(copied, keys, outgrown(next_cell))
    }
}

/// The address below which everything is taken once an element was appended to
/// `keys`.
pub open spec fn extended_frontier(cells: Cells, frontier: usize, keys: usize, bits: u64) -> usize {
    let list = elements(cells, keys);
    if keys != 0 && !cells[keys].gc.shape_shared && array_at(cells, keys)->0.length < array_at(
        cells,
        keys,
    )->0.capacity {
        frontier
    } else {
        frontier_after(
            frontier,
            CellView::Array(array_of(list.push(bits), roomy(list.len() as int))),
        )
    }
}

/// Appends a key to a keys array for one object: a shared array is cloned
/// first, an owned one extended in place or replaced. Its record follows a
/// replaced array. Gives the array that the object has from now on.
pub fn extend_keys(heap: &mut Heap, shapes: &mut ShapeTable, keys: usize, bits: u64) -> (r: usize)
    requires
        old(heap).wf(),
        extensible(old(heap)@, keys),
        array_room(roomy(elements(old(heap)@, keys).len() as int)) <= old(heap).room(),
    ensures
        final(heap).wf(),
        r == extended_addr(old(heap)@, old(heap).next_cell(), keys),
        final(heap)@ == extended(old(heap)@, old(heap).next_cell(), keys, bits),
        final(heap).frontier() == extended_frontier(
            old(heap)@,
            old(heap).frontier(),
            keys,
            bits,
        ),
        final(heap).room() >= old(heap).room() - array_room(
            roomy(elements(old(heap)@, keys).len() as int),
        ),
        final(shapes)@ == (if keys != 0 && !old(heap)@[keys].gc.shape_shared {
            keys_grown(old(shapes)@, keys, r)
        } else {
            old(shapes)@
        }),
{
    proof {
        assert(!heap@.contains_key(0));
    }
    let mut list: Vec<u64> = Vec::new();
    let ghost all = elements(heap@, keys);
    let mut owned = false;
    let mut count: u32 = 0;
    if keys != 0 {
        assert(heap@.contains_key(keys));
        if let Some(h) = heap.gc_header(keys) {
            owned = !h.shape_shared;
        }
        if let Some(a) = heap.array(keys) {
            if owned && a.length < a.capacity {
                heap.push_slot(keys, bits);
                return keys;
            }
            count = a.length;
            let mut i: u32 = 0;
            while i < count
                invariant
                    i <= count <= a.slots@.len(),
                    list@ =~= a.slots@.take(i as int),
                decreases count - i,
            {
                list.push(a.slots[i as usize]);
                i += 1;
            }
        }
    }
    assert(list@ =~= all);
    list.push(bits);
    let fresh = array_from(heap, &list, 2 * count + 4);
    if owned {
        heap.set_forward(keys, fresh);
        shape_keys_grown(shapes, keys, fresh);
    }
    fresh
}

/// Appending a key to the list of one object changes no shared list and no list
/// of another object.
pub proof fn shared_lists_never_change(
    cells: Cells,
    next_cell: usize,
    keys: usize,
    bits: u64,
    other: usize,
)
    requires
        extensible(cells, keys),
        !cells.contains_key(next_cell),
        array_at(cells, other) is Some,
    ensures
        cells[other].gc.shape_shared || other != keys ==> array_at(
            extended(cells, next_cell, keys, bits),
            other,
        ) == array_at(cells, other),
{
}

/// An extended list has the elements of the list and the new one last.
pub proof fn extended_lists_end_with_the_new_key(
    cells: Cells,
    next_cell: usize,
    keys: usize,
    bits: u64,
)
    requires
        extensible(cells, keys),
        keys != 0 ==> array_at(cells, keys)->0.slots.len() == array_at(cells, keys)->0.capacity,
        !cells.contains_key(0),
        !cells.contains_key(next_cell),
        roomy(elements(cells, keys).len() as int) <= u32::MAX,
    ensures
        elements(
            extended(cells, next_cell, keys, bits),
            extended_addr(cells, next_cell, keys),
        ) == elements(cells, keys).push(bits),
{
    let after = extended(cells, next_cell, keys, bits);
    let new = extended_addr(cells, next_cell, keys);
    assert(elements(after, new) =~= elements(cells, keys).push(bits));
}

/// A new array has the elements it was made with, and undefined in the slots
/// that are spare. It replaces no other and none replaces it.
pub proof fn new_arrays_hold_their_elements(list: Seq<u64>, capacity: int, i: int)
    requires
        list.len() <= capacity <= u32::MAX,
        0 <= i < capacity,
    ensures
        ({
            let a = array_of(list, capacity);
            &&& a.length == list.len()
            &&& a.capacity == capacity
            &&& a.slots.len() == capacity
            &&& a.forward == 0
            &&& a.slots.take(a.length as int) == list
            &&& i >= list.len() ==> a.slots[i] == 0x7FFC_0000_0000_0001
        }),
{
    let a = array_of(list, capacity);
    assert(a.slots.take(a.length as int) =~= list);
}

/// A list that is not shared and has room grows where it is. One that is not
/// shared and full moves to a new place with room to grow, and the old place
/// leads there. A shared one is copied to a new place and stays. Apart from the
/// two places nothing changes.
pub proof fn lists_grow_in_place_or_move(
    cells: Cells,
    next_cell: usize,
    keys: usize,
    bits: u64,
    other: usize,
)
    requires
        keys != 0,
        extensible(cells, keys),
        array_at(cells, keys)->0.slots.len() == array_at(cells, keys)->0.capacity,
        !cells.contains_key(next_cell),
        2 * elements(cells, keys).len() + 4 <= u32::MAX,
        other != keys,
        other != next_cell,
    ensures
        ({
            let was = array_at(cells, keys)->0;
            let after = extended(cells, next_cell, keys, bits);
            let now = extended_addr(cells, next_cell, keys);
            let shared = cells[keys].gc.shape_shared;
            &&& now == keys <==> !shared && was.length < was.capacity
            &&& now != keys ==> now == next_cell
            &&& array_at(after, now) is Some
            &&& array_at(after, now)->0.forward == 0
            &&& array_at(after, now)->0.length == was.length + 1
            &&& array_at(after, now)->0.slots[was.length as int] == bits
            &&& now != keys ==> array_at(after, now)->0.capacity > was.length + 1
            &&& now != keys && shared ==> after[keys] == cells[keys]
            &&& now != keys && !shared ==> array_at(after, keys) is Some && array_at(
                after,
                keys,
            )->0.forward == now
            &&& after[keys].gc == cells[keys].gc
            &&& after.contains_key(other) == cells.contains_key(other)
            &&& after[other] == cells[other]
        }),
{
}

} // verus!
