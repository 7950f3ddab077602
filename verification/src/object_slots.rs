//! Stores into an object's header and inline slots, and what the collector is
//! told of them.

use vstd::prelude::*;

use crate::gc::{GcEvent, GcLog};
use crate::heap::{
    array_at, fresh_header, meta_at, object_at, with_field, with_object, CellView, Cells, EntryView,
    Heap, HeapCell, LayoutState, ObjectHeader, ObjectMeta, ObjectView, ARRAY_HEADER_SIZE,
    FIRST_PAGE_SIZE, GC_HEADER_SIZE, KEYS_ARRAY_OFFSET, META_OFFSET, OBJECT_HEADER_SIZE,
    OBJECT_META_SIZE,
};
use crate::shapes::{is_shape_id, keys_grown, shape_id, Shapes};

verus! {

// ---------------------------------------------------------------------------
// The metadata record
// ---------------------------------------------------------------------------
/// A metadata record that says nothing.
pub open spec fn blank_meta() -> ObjectMeta {
    ObjectMeta { prototype: 0, attr_key_bits: 0, accessor_key_bits: 0 }
}

/// `cells` with `meta` as the metadata record of the object at `obj`.
pub open spec fn with_meta(cells: Cells, obj: usize, meta: usize) -> Cells {
    let o = object_at(cells, obj)->0;
    with_object(cells, obj, ObjectView { header: ObjectHeader { meta, ..o.header }, ..o })
}

/// Makes the record at `fresh` that of the object at `obj`, unless the object
/// got one while `fresh` was allocated; then that one stays. Gives the record
/// that the object has in the end.
pub fn object_meta_install(heap: &mut Heap, gc: &mut GcLog, obj: usize, fresh: usize) -> (r: usize)
    requires
        old(heap).wf(),
        object_at(old(heap)@, obj) is Some,
    ensures
        final(heap).wf(),
        final(heap).frontier() == old(heap).frontier(),
        ({
            let had = object_at(old(heap)@, obj)->0.header.meta;
            if had != 0 {
                &&& r == had
                &&& final(heap)@ == old(heap)@
                &&& final(gc)@ == old(gc)@
            } else {
                &&& r == fresh
                &&& final(heap)@ == with_meta(old(heap)@, obj, fresh)
                &&& final(gc)@ == old(gc)@.push(
                    GcEvent::SlotBarrier {
                        owner: obj,
                        slot_addr: (obj + META_OFFSET) as usize,
                        bits: fresh as u64,
                    },
                )
            }
        }),
{
    let header = match heap.object(obj) {
        None => {
            return 0;
        },
        Some(o) => o.header,
    };
    if header.meta != 0 {
        return header.meta;
    }
    heap.set_object_header(obj, ObjectHeader { meta: fresh, ..header });
    gc.report(
        GcEvent::SlotBarrier { owner: obj, slot_addr: obj + META_OFFSET, bits: fresh as u64 },
    );
    fresh
}

/// The metadata record that an object has once it was asked for. `fresh` is
/// where a new one goes.
pub open spec fn meta_of(cells: Cells, fresh: usize, obj: usize) -> usize {
    let had = object_at(cells, obj)->0.header.meta;
    if had != 0 {
        had
    } else {
        fresh
    }
}

/// The cells once the metadata record of an object was asked for.
pub open spec fn with_meta_ensured(cells: Cells, fresh: usize, obj: usize) -> Cells {
    if object_at(cells, obj)->0.header.meta != 0 {
        cells
    } else {
        with_meta(
            cells.insert(
                fresh,
                EntryView { gc: fresh_header(), cell: CellView::Meta(blank_meta()) },
            ),
            obj,
            fresh,
        )
    }
}

/// The metadata record of an object, which gets a blank one if it has none.
pub fn object_meta_ensure(heap: &mut Heap, gc: &mut GcLog, obj: usize) -> (r: usize)
    requires
        old(heap).wf(),
        object_at(old(heap)@, obj) is Some,
        object_at(old(heap)@, obj)->0.header.meta == 0 ==> GC_HEADER_SIZE + OBJECT_META_SIZE
            <= old(heap).room(),
    ensures
        final(heap).wf(),
        r == meta_of(old(heap)@, old(heap).next_cell(), obj),
        final(heap)@ == with_meta_ensured(old(heap)@, old(heap).next_cell(), obj),
        ({
            if object_at(old(heap)@, obj)->0.header.meta != 0 {
                &&& final(heap).frontier() == old(heap).frontier()
                &&& final(gc)@ == old(gc)@
            } else {
                &&& r != 0
                &&& !old(heap)@.contains_key(r)
                &&& final(heap).frontier() == r + OBJECT_META_SIZE
                &&& final(gc)@ == old(gc)@.push(
                    GcEvent::SlotBarrier {
                        owner: obj,
                        slot_addr: (obj + META_OFFSET) as usize,
                        bits: r as u64,
                    },
                )
            }
        }),
{
    if let Some(o) = heap.object(obj) {
        if o.header.meta != 0 {
            return o.header.meta;
        }
    }
    let blank = ObjectMeta { prototype: 0, attr_key_bits: 0, accessor_key_bits: 0 };
    let fresh = heap.allocate(HeapCell::Meta(blank), OBJECT_META_SIZE);
    object_meta_install(heap, gc, obj, fresh)
}

/// Where an object refers to its metadata record, if it has one.
pub open spec fn meta_word(cells: Cells, obj: usize) -> Option<usize> {
    match object_at(cells, obj) {
        Some(o) => if o.header.meta == 0 {
            None
        } else {
            Some((obj + META_OFFSET) as usize)
        },
        None => None,
    }
}

/// Address of the header word that refers to the metadata record, for the
/// collector to trace; `None` without a record. A regular expression has
/// other data there and never has one.
pub fn gc_object_meta_slot(heap: &Heap, user_ptr: usize) -> (r: Option<usize>)
    requires
        heap.wf(),
    ensures
        r == meta_word(heap@, user_ptr),
{
    if user_ptr == 0 || heap.is_regexp(user_ptr) {
        return None;
    }
    match heap.object(user_ptr) {
        None => None,
        Some(o) => if o.header.meta == 0 {
            None
        } else {
            Some(user_ptr + META_OFFSET)
        },
    }
}

// ---------------------------------------------------------------------------
// The keys array
// ---------------------------------------------------------------------------
/// A header with another keys array. The stamp of a plain object described the
/// keys array before, so it goes when the array changes; an append in place
/// leaves the address, the slots and the stamp as they are.
pub open spec fn rekeyed_header(header: ObjectHeader, keys_array: usize) -> ObjectHeader {
    ObjectHeader {
        keys_array,
        parent_class_id: if header.class_id == 0 && header.keys_array != keys_array && shape_id(
            header.parent_class_id,
        ) {
            0
        } else {
            header.parent_class_id
        },
        ..header
    }
}

/// `cells` with another header of the object at `obj`.
pub open spec fn with_header(cells: Cells, obj: usize, header: ObjectHeader) -> Cells {
    with_object(cells, obj, ObjectView { header, ..object_at(cells, obj)->0 })
}

/// The report of a store of `keys_array` into a header.
pub open spec fn keys_barrier(obj: usize, keys_array: usize) -> GcEvent {
    GcEvent::SlotBarrier {
        owner: obj,
        slot_addr: (obj + KEYS_ARRAY_OFFSET) as usize,
        bits: keys_array as u64,
    }
}

pub fn set_object_keys_array(heap: &mut Heap, gc: &mut GcLog, obj: usize, keys_array: usize)
    requires
        old(heap).wf(),
        object_at(old(heap)@, obj) is Some,
    ensures
        final(heap).wf(),
        final(heap).frontier() == old(heap).frontier(),
        final(heap)@ == with_header(
            old(heap)@,
            obj,
            rekeyed_header(object_at(old(heap)@, obj)->0.header, keys_array),
        ),
        final(gc)@ == old(gc)@.push(keys_barrier(obj, keys_array)),
{
    let mut header = match heap.object(obj) {
        None => {
            return;
        },
        Some(o) => o.header,
    };
    if header.class_id == 0 && header.keys_array != keys_array && is_shape_id(
        header.parent_class_id,
    ) {
        header.parent_class_id = 0;
    }
    header.keys_array = keys_array;
    heap.set_object_header(obj, header);
    gc.report(
        GcEvent::SlotBarrier {
            owner: obj,
            slot_addr: obj + KEYS_ARRAY_OFFSET,
            bits: keys_array as u64,
        },
    );
}

/// Where an object refers to its keys array, if it has one.
pub open spec fn keys_word(cells: Cells, obj: usize) -> Option<usize> {
    match object_at(cells, obj) {
        Some(o) => if o.header.keys_array == 0 {
            None
        } else {
            Some((obj + KEYS_ARRAY_OFFSET) as usize)
        },
        None => None,
    }
}

/// Address of the header word that refers to the keys array, for the collector
/// to trace; `None` without one.
pub fn gc_keys_array_slot(heap: &Heap, obj: usize) -> (r: Option<usize>)
    requires
        heap.wf(),
    ensures
        r == keys_word(heap@, obj),
{
    match heap.object(obj) {
        None => None,
        Some(o) => if o.header.keys_array == 0 {
            None
        } else {
            Some(obj + KEYS_ARRAY_OFFSET)
        },
    }
}

// ---------------------------------------------------------------------------
// Inline slots
// ---------------------------------------------------------------------------
/// Tells the collector what a slot holds.
pub fn note_object_field_slot(gc: &mut GcLog, obj: usize, field_index: usize, value_bits: u64)
    ensures
        final(gc)@ == old(gc)@.push(
            GcEvent::LayoutNote { owner: obj, index: field_index, bits: value_bits },
        ),
{
    gc.report(GcEvent::LayoutNote { owner: obj, index: field_index, bits: value_bits });
}

/// Address of inline slot `index` of the object at `obj`.
pub open spec fn field_addr(obj: usize, index: int) -> usize {
    (obj + OBJECT_HEADER_SIZE + 8 * index) as usize
}

/// The report of a store into an inline slot.
pub open spec fn field_store(obj: usize, index: usize, bits: u64) -> GcEvent {
    GcEvent::SlotStore { owner: obj, slot_addr: field_addr(obj, index as int), index, bits }
}

/// Writes an inline slot.
pub fn store_object_field_slot(
    heap: &mut Heap,
    gc: &mut GcLog,
    obj: usize,
    field_index: usize,
    value_bits: u64,
)
    requires
        old(heap).wf(),
        object_at(old(heap)@, obj) is Some,
        field_index < object_at(old(heap)@, obj)->0.fields.len(),
    ensures
        final(heap).wf(),
        final(heap).frontier() == old(heap).frontier(),
        final(heap)@ == with_field(old(heap)@, obj, field_index as int, value_bits),
        final(gc)@ == old(gc)@.push(field_store(obj, field_index, value_bits)),
{
    assert(heap@.contains_key(obj));
    let slot_addr: usize = obj + OBJECT_HEADER_SIZE + 8 * field_index;
    heap.set_field(obj, field_index, value_bits);
    gc.report(
        GcEvent::SlotStore { owner: obj, slot_addr, index: field_index, bits: value_bits },
    );
}

/// Does a store of an unforeseen key invalidate what the collector knows of
/// the slots at `obj`?
pub open spec fn layout_outdated(cells: Cells, obj: usize) -> bool {
    cells.contains_key(obj) && (cells[obj].gc.layout == LayoutState::SideMask
        || cells[obj].gc.typed_descriptor)
}

/// Tells the collector that the slots of an object may hold anything from now
/// on, if it believes to know better.
pub fn mark_object_dynamic_shape_unknown(heap: &Heap, gc: &mut GcLog, obj: usize)
    requires
        heap.wf(),
    ensures
        final(gc)@ == (if layout_outdated(heap@, obj) {
            old(gc)@.push(GcEvent::LayoutUnknown { owner: obj })
        } else {
            old(gc)@
        }),
{
    if obj < GC_HEADER_SIZE + FIRST_PAGE_SIZE {
        assert(!heap@.contains_key(obj));
        return;
    }
    let header = match heap.gc_header(obj) {
        None => {
            return;
        },
        Some(h) => h,
    };
    let masked = match header.layout {
        LayoutState::SideMask => true,
        _ => false,
    };
    if !masked && !header.typed_descriptor {
        return;
    }
    gc.report(GcEvent::LayoutUnknown { owner: obj });
}

/// A run of heap slots.
#[derive(Clone, Copy, PartialEq, Eq, Structural, Debug)]
pub struct HeapSlotRange {
    pub start: usize,
    pub count: usize,
}

/// A field count beyond this is taken for garbage.
pub const MAX_TRACED_FIELDS: u32 = 1_000_000;

/// The slots of an object that are traced.
pub open spec fn traced_slots(cells: Cells, obj: usize) -> Option<HeapSlotRange> {
    match object_at(cells, obj) {
        Some(o) => if o.header.field_count > MAX_TRACED_FIELDS {
            None
        } else {
            Some(
                HeapSlotRange {
                    start: (obj + OBJECT_HEADER_SIZE) as usize,
                    count: o.header.field_count as usize,
                },
            )
        },
        None => None,
    }
}

/// The slots of an object that the collector traces; `None` when there is no
/// object or its field count is absurd.
pub fn gc_field_slot_range(heap: &Heap, obj: usize) -> (r: Option<HeapSlotRange>)
    requires
        heap.wf(),
    ensures
        r == traced_slots(heap@, obj),
{
    match heap.object(obj) {
        None => None,
        Some(o) => if o.header.field_count > MAX_TRACED_FIELDS {
            None
        } else {
            assert(heap@.contains_key(obj));
            Some(
                HeapSlotRange {
                    start: obj + OBJECT_HEADER_SIZE,
                    count: o.header.field_count as usize,
                },
            )
        },
    }
}

/// The reports of the first `count` slots, which begin at `base`.
pub open spec fn slot_barriers(owner: usize, base: int, words: Seq<u64>, count: int) -> Seq<
    GcEvent,
> {
    Seq::new(
        count as nat,
        |i: int|
            GcEvent::SlotBarrier { owner, slot_addr: (base + 8 * i) as usize, bits: words[i] },
    )
}

/// The reports of a rebuilt layout. What is in the old generation reports its
/// slots too, for some may refer to the young one.
pub open spec fn rebuild_events(
    old_gen: bool,
    owner: usize,
    base: int,
    words: Seq<u64>,
    count: int,
) -> Seq<GcEvent> {
    seq![GcEvent::LayoutRebuild { owner, count: count as usize }] + if old_gen {
        slot_barriers(owner, base, words, count)
    } else {
        Seq::empty()
    }
}

fn report_rebuild(
    gc: &mut GcLog,
    old_gen: bool,
    owner: usize,
    base: usize,
    words: &Vec<u64>,
    count: usize,
)
    requires
        count <= words@.len(),
        base + 8 * words@.len() <= usize::MAX,
    ensures
        final(gc)@ == old(gc)@ + rebuild_events(
            old_gen,
            owner,
            base as int,
            words@,
            count as int,
        ),
{
    gc.report(GcEvent::LayoutRebuild { owner, count });
    let ghost start = gc@;
    if old_gen {
        let mut i: usize = 0;
        proof {
            assert(start =~= start + slot_barriers(owner, base as int, words@, 0));
        }
        while i < count
            invariant
                i <= count <= words@.len(),
                base + 8 * words@.len() <= usize::MAX,
                gc@ == start + slot_barriers(owner, base as int, words@, i as int),
            decreases count - i,
        {
            gc.report(GcEvent::SlotBarrier { owner, slot_addr: base + 8 * i, bits: words[i] });
            i += 1;
            proof {
                assert(gc@ =~= start + slot_barriers(owner, base as int, words@, i as int));
            }
        }
    }
    proof {
        assert(gc@ =~= old(gc)@ + rebuild_events(
            old_gen,
            owner,
            base as int,
            words@,
            count as int,
        ));
    }
}

/// Has the collector derive the layout of an object from its first slots.
pub fn rebuild_object_field_layout(heap: &Heap, gc: &mut GcLog, obj: usize, slot_count: usize)
    requires
        heap.wf(),
        object_at(heap@, obj) is Some,
        slot_count <= object_at(heap@, obj)->0.fields.len(),
    ensures
        final(gc)@ == old(gc)@ + rebuild_events(
            heap@[obj].gc.old_gen,
            obj,
            obj + OBJECT_HEADER_SIZE,
            object_at(heap@, obj)->0.fields,
            slot_count as int,
        ),
{
    assert(heap@.contains_key(obj));
    if let Some(o) = heap.object(obj) {
        if let Some(h) = heap.gc_header(obj) {
            report_rebuild(gc, h.old_gen, obj, obj + OBJECT_HEADER_SIZE, &o.fields, slot_count);
        }
    }
}

/// Has the collector derive the layout of an array from its elements.
pub fn rebuild_array_layout_from_slots(heap: &Heap, gc: &mut GcLog, arr: usize)
    requires
        heap.wf(),
        arr != 0 ==> array_at(heap@, arr) is Some && array_at(heap@, arr)->0.length <= array_at(
            heap@,
            arr,
        )->0.capacity,
    ensures
        final(gc)@ == (if arr == 0 {
            old(gc)@
        } else {
            old(gc)@ + rebuild_events(
                heap@[arr].gc.old_gen,
                arr,
                arr + ARRAY_HEADER_SIZE,
                array_at(heap@, arr)->0.slots,
                array_at(heap@, arr)->0.length as int,
            )
        }),
{
    if arr == 0 {
        return;
    }
    assert(heap@.contains_key(arr));
    if let Some(a) = heap.array(arr) {
        if let Some(h) = heap.gc_header(arr) {
            report_rebuild(
                gc,
                h.old_gen,
                arr,
                arr + ARRAY_HEADER_SIZE,
                &a.slots,
                a.length as usize,
            );
        }
    }
}

// ---------------------------------------------------------------------------
// Laws
// ---------------------------------------------------------------------------
/// A stamp tells the truth: a plain object carries none, or the shape id of its
/// keys array.
pub open spec fn stamp_true(shapes: Shapes, header: ObjectHeader) -> bool {
    header.class_id == 0 && header.parent_class_id != 0 ==> {
        &&& shape_id(header.parent_class_id)
        &&& shapes.contains_key(header.keys_array)
        &&& shapes[header.keys_array].shape_id == header.parent_class_id
    }
}

/// Giving an object another keys array keeps its stamp true, also when the
/// array is the larger one that its own was moved to.
pub proof fn stamp_stays_true(shapes: Shapes, header: ObjectHeader, keys_array: usize)
    requires
        stamp_true(shapes, header),
    ensures
        stamp_true(shapes, rekeyed_header(header, keys_array)),
        stamp_true(
            keys_grown(shapes, header.keys_array, keys_array),
            rekeyed_header(header, keys_array),
        ),
{
}

/// An object has one metadata record: it is made blank when it is first asked
/// for, and from then on asking gives the same one and leaves everything as it
/// is.
pub proof fn metadata_is_made_once(cells: Cells, fresh: usize, obj: usize, later: usize)
    requires
        object_at(cells, obj) is Some,
        fresh != 0,
        !cells.contains_key(fresh),
    ensures
        ({
            let had = object_at(cells, obj)->0.header.meta;
            let r = meta_of(cells, fresh, obj);
            let after = with_meta_ensured(cells, fresh, obj);
            &&& r != 0
            &&& object_at(after, obj) is Some
            &&& object_at(after, obj)->0.header.meta == r
            &&& had == 0 ==> meta_at(after, r) == Some(blank_meta())
            &&& had != 0 ==> r == had && after == cells
            &&& meta_of(after, later, obj) == r
            &&& with_meta_ensured(after, later, obj) == after
            &&& forall|a: usize|
                a != obj && a != fresh ==> #[trigger] after.contains_key(a) == cells.contains_key(
                    a,
                ) && after[a] == cells[a]
        }),
{
}

/// A store into an inline slot is read back from there, and no other slot,
/// header or cell changes.
pub proof fn stored_field_reads_back(cells: Cells, obj: usize, index: int, bits: u64)
    requires
        object_at(cells, obj) is Some,
        0 <= index < object_at(cells, obj)->0.fields.len(),
    ensures
        ({
            let before = object_at(cells, obj)->0;
            let after = object_at(with_field(cells, obj, index, bits), obj)->0;
            &&& after.fields[index] == bits
            &&& after.header == before.header
            &&& after.fields.len() == before.fields.len()
            &&& forall|i: int|
                0 <= i < before.fields.len() && i != index ==> #[trigger] after.fields[i]
                    == before.fields[i]
            &&& forall|a: usize| a != obj ==> #[trigger] with_field(cells, obj, index, bits)[a]
                == cells[a]
        }),
{
}

/// The words that the collector traces lie in the object, none on another: the
/// reference to the keys array and that to the metadata in the header, if they
/// are set, and all fields behind it, unless their number is absurd.
pub proof fn traced_words_lie_in_the_object(cells: Cells, obj: usize, i: int, j: int)
    requires
        object_at(cells, obj) is Some,
        object_at(cells, obj)->0.header.field_count <= object_at(cells, obj)->0.fields.len(),
        obj + 32 + 8 * object_at(cells, obj)->0.fields.len() <= usize::MAX,
        0 <= i < object_at(cells, obj)->0.fields.len(),
        0 <= j < object_at(cells, obj)->0.fields.len(),
    ensures
        ({
            let o = object_at(cells, obj)->0;
            &&& keys_word(cells, obj) is Some <==> o.header.keys_array != 0
            &&& meta_word(cells, obj) is Some <==> o.header.meta != 0
            &&& keys_word(cells, obj) matches Some(a) ==> a == obj + 16
            &&& meta_word(cells, obj) matches Some(a) ==> a == obj + 24
            &&& traced_slots(cells, obj) is Some <==> o.header.field_count <= 1_000_000
            &&& traced_slots(cells, obj) matches Some(range) ==> {
                &&& range.start == field_addr(obj, 0)
                &&& range.count == o.header.field_count
                &&& range.start + 8 * range.count <= obj + 32 + 8 * o.fields.len()
            }
            &&& obj + 32 <= field_addr(obj, i)
            &&& field_addr(obj, i) + 8 <= obj + 32 + 8 * o.fields.len()
            &&& i < j ==> field_addr(obj, i) + 8 <= field_addr(obj, j)
        }),
{
}

/// What is no object has no words to trace.
pub proof fn only_objects_are_traced(cells: Cells, addr: usize)
    requires
        object_at(cells, addr) is None,
    ensures
        keys_word(cells, addr) is None,
        meta_word(cells, addr) is None,
        traced_slots(cells, addr) is None,
{
}

/// A store is reported with its owner, its place and what was stored.
pub proof fn stores_are_reported_where_they_happen(
    obj: usize,
    index: usize,
    bits: u64,
    keys_array: usize,
)
    requires
        obj + 32 + 8 * index <= usize::MAX,
    ensures
        field_store(obj, index, bits) == (GcEvent::SlotStore {
            owner: obj,
            slot_addr: (obj + 32 + 8 * index) as usize,
            index,
            bits,
        }),
        keys_barrier(obj, keys_array) == (GcEvent::SlotBarrier {
            owner: obj,
            slot_addr: (obj + 16) as usize,
            bits: keys_array as u64,
        }),
{
}

/// Another keys array leaves the rest of a header as it is. Only the stamp of a
/// plain object goes, and only if the array is another one: the stamp named the
/// shape of the array before.
pub proof fn another_keys_array_drops_the_stamp(header: ObjectHeader, keys_array: usize)
    ensures
        ({
            let after = rekeyed_header(header, keys_array);
            let stamped = header.class_id == 0 && 0x8000_0000 <= header.parent_class_id
                < 0xC000_0000;
            &&& after.keys_array == keys_array
            &&& after.object_type == header.object_type
            &&& after.class_id == header.class_id
            &&& after.field_count == header.field_count
            &&& after.meta == header.meta
            &&& stamped && keys_array != header.keys_array ==> after.parent_class_id == 0
            &&& !stamped || keys_array == header.keys_array ==> after.parent_class_id
                == header.parent_class_id
        }),
{
}

/// A rebuilt layout is reported once, and an old cell reports each of its slots
/// too, in order, where it is and with what it holds.
pub proof fn rebuilt_layouts_report_old_slots(
    old_gen: bool,
    owner: usize,
    base: int,
    words: Seq<u64>,
    count: int,
    i: int,
)
    requires
        0 <= count <= words.len(),
        0 <= i < count,
        0 <= base,
        base + 8 * count <= usize::MAX,
    ensures
        ({
            let events = rebuild_events(old_gen, owner, base, words, count);
            &&& events[0] == (GcEvent::LayoutRebuild { owner, count: count as usize })
            &&& !old_gen ==> events.len() == 1
            &&& old_gen ==> {
                &&& events.len() == count + 1
                &&& events[i + 1] == (GcEvent::SlotBarrier {
                    owner,
                    slot_addr: (base + 8 * i) as usize,
                    bits: words[i],
                })
            }
        }),
{
}

/// The layout of a cell is given up exactly if the collector holds a mask or a
/// descriptor of it.
pub proof fn known_layouts_become_outdated(cells: Cells, obj: usize)
    ensures
        !cells.contains_key(obj) ==> !layout_outdated(cells, obj),
        cells.contains_key(obj) ==> (layout_outdated(cells, obj) <==> {
            ||| cells[obj].gc.typed_descriptor
            ||| cells[obj].gc.layout is SideMask
        }),
{
}

} // verus!
