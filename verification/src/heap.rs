//! The collected heap as the object layer sees it.
//!
//! An allocation is named by its address and holds one cell: an array, a
//! string, an object, a per-object metadata record or something that the
//! object layer only needs to tell apart from those. Each cell carries the
//! collector's header word.

use std::collections::HashMap;
use vstd::prelude::*;

verus! {

broadcast use vstd::std_specs::hash::group_hash_axioms;

/// Size of the collector's header, which precedes every cell.
pub const GC_HEADER_SIZE: usize = 8;

/// No cell starts below this address plus the collector's header.
pub const FIRST_PAGE_SIZE: usize = 0x1000;

/// Inline slots that every object has, however few fields it was made with.
/// Allocation and each bounds check use the same floor.
pub const INLINE_SLOT_FLOOR: u32 = 4;

/// Size of an object's header; the inline slots follow it.
pub const OBJECT_HEADER_SIZE: usize = 32;

/// Offset of `keys_array` in an object's header.
pub const KEYS_ARRAY_OFFSET: usize = 16;

/// Offset of `meta` in an object's header.
pub const META_OFFSET: usize = 24;

/// Size of an array's header; the slots follow it.
pub const ARRAY_HEADER_SIZE: usize = 8;

/// Size of a string's header; the bytes follow it.
pub const STRING_HEADER_SIZE: usize = 16;

/// Size of a metadata record.
pub const OBJECT_META_SIZE: usize = 24;

/// First address that the heap hands out.
pub const HEAP_START: usize = 0x0020_0000;

/// Exclusive end of the addresses that the heap hands out.
pub const HEAP_END: usize = 0x8000_0000;

/// `object_type` of an ordinary object.
pub const OBJECT_TYPE_REGULAR: u32 = 1;

/// What the collector knows about the slots of a cell.
#[derive(Clone, Copy, PartialEq, Eq, Structural, Debug)]
pub enum LayoutState {
    /// No slot holds a pointer.
    PointerFree,
    /// A mask on the side tells which slots hold pointers.
    SideMask,
    /// Any slot may hold a pointer.
    Unknown,
}

/// The kinds of cell that the collector's header tells apart.
#[derive(Clone, Copy, PartialEq, Eq, Structural, Debug)]
pub enum GcType {
    Array,
    String,
    /// An object, or a regular expression, which is tagged the same.
    Object,
    ObjectMeta,
    Other,
}

/// The collector's header word.
#[derive(Clone, Copy, PartialEq, Eq, Structural, Debug)]
pub struct GcHeader {
    /// A keys array that several objects may use: whoever extends it clones
    /// it first.
    pub shape_shared: bool,
    /// The canonical copy of a string.
    pub interned: bool,
    pub layout: LayoutState,
    /// The cell has a typed layout descriptor.
    pub typed_descriptor: bool,
    /// The cell lives in the old generation.
    pub old_gen: bool,
}

/// Header of an object; the fields follow it inline.
#[derive(Clone, Copy, PartialEq, Eq, Structural, Debug)]
pub struct ObjectHeader {
    /// Tells ordinary objects from error objects.
    pub object_type: u32,
    pub class_id: u32,
    /// Parent class of an instance. A plain object (`class_id` zero) has no
    /// parent, so the word holds the stamp of its shape there.
    pub parent_class_id: u32,
    pub field_count: u32,
    /// Address of the array of key strings, or zero.
    pub keys_array: usize,
    /// Address of the metadata record, or zero.
    pub meta: usize,
}

/// Rarely needed per-object data, reached through `ObjectHeader::meta`.
#[derive(Clone, Copy, PartialEq, Eq, Structural, Debug)]
pub struct ObjectMeta {
    /// Custom prototype as a boxed value; zero when none was set.
    pub prototype: u64,
    /// Bloom summary of the keys with a customised property descriptor.
    pub attr_key_bits: u64,
    /// Bloom summary of the keys with an accessor.
    pub accessor_key_bits: u64,
}

/// An array. `forward` is zero, or the address of the larger array that
/// replaced this one.
#[derive(Debug)]
pub struct ArrayHeader {
    pub length: u32,
    pub capacity: u32,
    pub forward: usize,
    pub slots: Vec<u64>,
}

#[derive(Debug)]
pub struct StringHeader {
    pub bytes: Vec<u8>,
}

#[derive(Debug)]
pub struct ObjectCell {
    pub header: ObjectHeader,
    pub fields: Vec<u64>,
}

#[derive(Debug)]
pub enum HeapCell {
    Array(ArrayHeader),
    String(StringHeader),
    Object(ObjectCell),
    Meta(ObjectMeta),
    RegExp,
    Other,
}

#[derive(Debug)]
pub struct HeapEntry {
    pub gc: GcHeader,
    pub cell: HeapCell,
}

/// What an array holds.
pub struct ArrayView {
    pub length: u32,
    pub capacity: u32,
    pub forward: usize,
    pub slots: Seq<u64>,
}

/// What an object holds.
pub struct ObjectView {
    pub header: ObjectHeader,
    pub fields: Seq<u64>,
}

/// What a cell holds.
pub enum CellView {
    Array(ArrayView),
    String(Seq<u8>),
    Object(ObjectView),
    Meta(ObjectMeta),
    RegExp,
    Other,
}

pub struct EntryView {
    pub gc: GcHeader,
    pub cell: CellView,
}

/// The cells of a heap by address.
pub type Cells = Map<usize, EntryView>;

impl View for ArrayHeader {
    type V = ArrayView;

    open spec fn view(&self) -> ArrayView {
        ArrayView {
            length: self.length,
            capacity: self.capacity,
            forward: self.forward,
            slots: self.slots@,
        }
    }
}

impl View for ObjectCell {
    type V = ObjectView;

    open spec fn view(&self) -> ObjectView {
        ObjectView { header: self.header, fields: self.fields@ }
    }
}

impl View for HeapEntry {
    type V = EntryView;

    open spec fn view(&self) -> EntryView {
        EntryView {
            gc: self.gc,
            cell: match self.cell {
                HeapCell::Array(a) => CellView::Array(a@),
                HeapCell::String(s) => CellView::String(s.bytes@),
                HeapCell::Object(o) => CellView::Object(o@),
                HeapCell::Meta(m) => CellView::Meta(m),
                HeapCell::RegExp => CellView::RegExp,
                HeapCell::Other => CellView::Other,
            },
        }
    }
}

pub open spec fn array_at(cells: Cells, addr: usize) -> Option<ArrayView> {
    if cells.contains_key(addr) {
        match cells[addr].cell {
            CellView::Array(a) => Some(a),
            _ => None,
        }
    } else {
        None
    }
}

pub open spec fn string_at(cells: Cells, addr: usize) -> Option<Seq<u8>> {
    if cells.contains_key(addr) {
        match cells[addr].cell {
            CellView::String(s) => Some(s),
            _ => None,
        }
    } else {
        None
    }
}

/// The object at an address. A regular expression is no object here, although
/// the collector's header calls it one.
pub open spec fn object_at(cells: Cells, addr: usize) -> Option<ObjectView> {
    if cells.contains_key(addr) {
        match cells[addr].cell {
            CellView::Object(o) => Some(o),
            _ => None,
        }
    } else {
        None
    }
}

pub open spec fn meta_at(cells: Cells, addr: usize) -> Option<ObjectMeta> {
    if cells.contains_key(addr) {
        match cells[addr].cell {
            CellView::Meta(m) => Some(m),
            _ => None,
        }
    } else {
        None
    }
}

pub open spec fn regexp_at(cells: Cells, addr: usize) -> bool {
    cells.contains_key(addr) && cells[addr].cell is RegExp
}

/// What the collector's header calls a cell.
pub open spec fn gc_type(cell: CellView) -> GcType {
    match cell {
        CellView::Array(_) => GcType::Array,
        CellView::String(_) => GcType::String,
        CellView::Object(_) => GcType::Object,
        CellView::RegExp => GcType::Object,
        CellView::Meta(_) => GcType::ObjectMeta,
        CellView::Other => GcType::Other,
    }
}

/// Slots that may be read without leaving the object's allocation.
pub open spec fn alloc_limit(header: ObjectHeader) -> int {
    if header.field_count >= INLINE_SLOT_FLOOR {
        header.field_count as int
    } else {
        INLINE_SLOT_FLOOR as int
    }
}

pub open spec fn round_up_8(n: int) -> int {
    ((n + 7) / 8) * 8
}

/// Bytes that a cell occupies behind the collector's header.
pub open spec fn cell_size(cell: CellView) -> int {
    match cell {
        CellView::Array(a) => ARRAY_HEADER_SIZE + 8 * a.slots.len(),
        CellView::String(s) => round_up_8(STRING_HEADER_SIZE + s.len()),
        CellView::Object(o) => OBJECT_HEADER_SIZE + 8 * o.fields.len(),
        CellView::Meta(_) => OBJECT_META_SIZE as int,
        CellView::RegExp => OBJECT_HEADER_SIZE as int,
        CellView::Other => 8,
    }
}

/// The address below which everything is taken once `cell` is allocated.
pub open spec fn frontier_after(frontier: usize, cell: CellView) -> usize {
    (frontier + GC_HEADER_SIZE + cell_size(cell)) as usize
}

/// The cells of a heap, and the address below which everything is taken.
pub struct Space {
    pub cells: Cells,
    pub frontier: usize,
}

impl Space {
    /// The address that the next allocation gets.
    pub open spec fn next_cell(self) -> usize {
        (self.frontier + GC_HEADER_SIZE) as usize
    }

    /// The heap once `cell` is allocated.
    pub open spec fn allocated(self, cell: CellView) -> Space {
        Space {
            cells: self.cells.insert(self.next_cell(), EntryView { gc: fresh_header(), cell }),
            frontier: frontier_after(self.frontier, cell),
        }
    }
}

/// A cell's own invariant: an array's storage has the capacity that the
/// header claims, a replaced array points onwards, and an object has every
/// inline slot that its header lets a reader touch.
pub open spec fn cell_wf(addr: usize, cell: CellView) -> bool {
    match cell {
        CellView::Array(a) => {
            &&& a.slots.len() == a.capacity
            &&& a.forward == 0 || addr < a.forward
        },
        CellView::Object(o) => alloc_limit(o.header) <= o.fields.len(),
        _ => true,
    }
}

pub open spec fn cells_wf(cells: Cells, next: usize) -> bool {
    &&& HEAP_START <= next <= HEAP_END
    &&& forall|a: usize| #[trigger]
        cells.contains_key(a) ==> {
            &&& HEAP_START <= a
            &&& a + cell_size(cells[a].cell) <= next
            &&& cell_wf(a, cells[a].cell)
        }
}

pub struct Heap {
    entries: HashMap<usize, HeapEntry>,
    next: usize,
}

impl View for Heap {
    type V = Cells;

    closed spec fn view(&self) -> Cells {
        self.entries@.map_values(|e: HeapEntry| e@)
    }
}

/// The header of a cell that was just allocated.
pub open spec fn fresh_header() -> GcHeader {
    GcHeader {
        shape_shared: false,
        interned: false,
        layout: LayoutState::PointerFree,
        typed_descriptor: false,
        old_gen: false,
    }
}

impl Heap {
    /// The address below which everything is taken.
    pub closed spec fn frontier(self) -> usize {
        self.next
    }

    pub open spec fn space(self) -> Space {
        Space { cells: self@, frontier: self.frontier() }
    }

    /// Bytes that can still be handed out.
    pub open spec fn room(self) -> int {
        HEAP_END - self.frontier()
    }

    pub open spec fn wf(self) -> bool {
        cells_wf(self@, self.frontier())
    }

    pub fn new() -> (r: Heap)
        ensures
            r.wf(),
            r@ == Map::<usize, EntryView>::empty(),
            r.frontier() == HEAP_START,
    {
        let r = Heap { entries: HashMap::new(), next: HEAP_START };
        assert(r@ =~= Map::<usize, EntryView>::empty());
        r
    }

    /// Bytes that can still be handed out.
    pub fn available(&self) -> (r: usize)
        requires
            self.wf(),
        ensures
            r == self.room(),
    {
        HEAP_END - self.next
    }

    /// Puts `cell` at the next free address. Its header is that of a fresh
    /// cell.
    pub fn allocate(&mut self, cell: HeapCell, size: usize) -> (addr: usize)
        requires
            old(self).wf(),
            size == cell_size((HeapEntry { gc: fresh_header(), cell })@.cell),
            cell_wf(old(self).next_cell(), (HeapEntry { gc: fresh_header(), cell })@.cell),
            GC_HEADER_SIZE + size <= old(self).room(),
        ensures
            final(self).wf(),
            addr == old(self).next_cell(),
            !old(self)@.contains_key(addr),
            final(self)@ == old(self)@.insert(addr, (HeapEntry { gc: fresh_header(), cell })@),
            final(self).frontier() == addr + size,
    {
        let addr: usize = self.next + GC_HEADER_SIZE;
        let entry = HeapEntry {
            gc: GcHeader {
                shape_shared: false,
                interned: false,
                layout: LayoutState::PointerFree,
                typed_descriptor: false,
                old_gen: false,
            },
            cell,
        };
        let ghost before = self.entries@;
        self.entries.insert(addr, entry);
        self.next = addr + size;
        proof {
            assert(self@ =~= old(self)@.insert(addr, entry@));
        }
        addr
    }

    /// The address that the next allocation gets.
    pub open spec fn next_cell(self) -> usize {
        (self.frontier() + GC_HEADER_SIZE) as usize
    }

    fn entry(&self, addr: usize) -> (r: Option<&HeapEntry>)
        ensures
            r is Some <==> self@.contains_key(addr),
            r matches Some(e) ==> e@ == self@[addr],
    {
        self.entries.get(&addr)
    }

    /// What the collector's header calls the cell at `addr`.
    pub fn gc_type(&self, addr: usize) -> (r: Option<GcType>)
        ensures
            r is Some <==> self@.contains_key(addr),
            r matches Some(t) ==> t == gc_type(self@[addr].cell),
    {
        match self.entry(addr) {
            None => None,
            Some(e) => Some(
                match &e.cell {
                    HeapCell::Array(_) => GcType::Array,
                    HeapCell::String(_) => GcType::String,
                    HeapCell::Object(_) => GcType::Object,
                    HeapCell::Meta(_) => GcType::ObjectMeta,
                    HeapCell::RegExp => GcType::Object,
                    HeapCell::Other => GcType::Other,
                },
            ),
        }
    }

    pub fn gc_header(&self, addr: usize) -> (r: Option<GcHeader>)
        ensures
            r is Some <==> self@.contains_key(addr),
            r matches Some(h) ==> h == self@[addr].gc,
    {
        match self.entry(addr) {
            None => None,
            Some(e) => Some(e.gc),
        }
    }

    pub fn array(&self, addr: usize) -> (r: Option<&ArrayHeader>)
        ensures
            r is Some <==> array_at(self@, addr) is Some,
            r matches Some(a) ==> array_at(self@, addr) == Some(a@),
    {
        match self.entry(addr) {
            None => None,
            Some(e) => match &e.cell {
                HeapCell::Array(a) => Some(a),
                _ => None,
            },
        }
    }

    pub fn string(&self, addr: usize) -> (r: Option<&StringHeader>)
        ensures
            r is Some <==> string_at(self@, addr) is Some,
            r matches Some(s) ==> string_at(self@, addr) == Some(s.bytes@),
    {
        match self.entry(addr) {
            None => None,
            Some(e) => match &e.cell {
                HeapCell::String(s) => Some(s),
                _ => None,
            },
        }
    }

    pub fn object(&self, addr: usize) -> (r: Option<&ObjectCell>)
        ensures
            r is Some <==> object_at(self@, addr) is Some,
            r matches Some(o) ==> object_at(self@, addr) == Some(o@),
    {
        match self.entry(addr) {
            None => None,
            Some(e) => match &e.cell {
                HeapCell::Object(o) => Some(o),
                _ => None,
            },
        }
    }

    pub fn meta(&self, addr: usize) -> (r: Option<ObjectMeta>)
        ensures
            r == meta_at(self@, addr),
    {
        match self.entry(addr) {
            None => None,
            Some(e) => match &e.cell {
                HeapCell::Meta(m) => Some(*m),
                _ => None,
            },
        }
    }

    pub fn is_regexp(&self, addr: usize) -> (r: bool)
        ensures
            r == regexp_at(self@, addr),
    {
        match self.entry(addr) {
            None => false,
            Some(e) => match &e.cell {
                HeapCell::RegExp => true,
                _ => false,
            },
        }
    }

    /// Takes the cell at `addr` out, to be put back changed.
    fn take(&mut self, addr: usize) -> (r: HeapEntry)
        requires
            old(self)@.contains_key(addr),
        ensures
            r@ == old(self)@[addr],
            final(self)@ == old(self)@.remove(addr),
            final(self).frontier() == old(self).frontier(),
    {
        let taken = self.entries.remove(&addr);
        proof {
            assert(self@ =~= old(self)@.remove(addr));
        }
        taken.unwrap()
    }

    fn put(&mut self, addr: usize, entry: HeapEntry)
        ensures
            final(self)@ == old(self)@.insert(addr, entry@),
            final(self).frontier() == old(self).frontier(),
    {
        self.entries.insert(addr, entry);
        proof {
            assert(self@ =~= old(self)@.insert(addr, entry@));
        }
    }

    /// Replaces the collector's header of a cell.
    pub fn set_gc_header(&mut self, addr: usize, gc: GcHeader)
        requires
            old(self).wf(),
            old(self)@.contains_key(addr),
        ensures
            final(self).wf(),
            final(self)@ == with_gc(old(self)@, addr, gc),
            final(self).frontier() == old(self).frontier(),
    {
        let mut e = self.take(addr);
        e.gc = gc;
        self.put(addr, e);
        proof {
            assert(self@ =~= with_gc(old(self)@, addr, gc));
        }
    }

    /// Replaces the header of an object, which must leave every reachable
    /// slot inside the allocation.
    pub fn set_object_header(&mut self, addr: usize, header: ObjectHeader)
        requires
            old(self).wf(),
            object_at(old(self)@, addr) is Some,
            alloc_limit(header) <= object_at(old(self)@, addr)->0.fields.len(),
        ensures
            final(self).wf(),
            final(self)@ == with_object(
                old(self)@,
                addr,
                ObjectView { header, ..object_at(old(self)@, addr)->0 },
            ),
            final(self).frontier() == old(self).frontier(),
    {
        let e = self.take(addr);
        let gc = e.gc;
        if let HeapCell::Object(mut o) = e.cell {
            o.header = header;
            self.put(addr, HeapEntry { gc, cell: HeapCell::Object(o) });
        }
        proof {
            assert(self@ =~= with_object(
                old(self)@,
                addr,
                ObjectView { header, ..object_at(old(self)@, addr)->0 },
            ));
        }
    }

    /// Writes inline slot `index` of an object.
    pub fn set_field(&mut self, addr: usize, index: usize, bits: u64)
        requires
            old(self).wf(),
            object_at(old(self)@, addr) is Some,
            index < object_at(old(self)@, addr)->0.fields.len(),
        ensures
            final(self).wf(),
            final(self)@ == with_field(old(self)@, addr, index as int, bits),
            final(self).frontier() == old(self).frontier(),
    {
        let e = self.take(addr);
        let gc = e.gc;
        if let HeapCell::Object(mut o) = e.cell {
            o.fields.set(index, bits);
            self.put(addr, HeapEntry { gc, cell: HeapCell::Object(o) });
        }
        proof {
            assert(self@ =~= with_field(old(self)@, addr, index as int, bits));
        }
    }

    /// Appends `bits` to an array that has spare capacity.
    pub fn push_slot(&mut self, addr: usize, bits: u64)
        requires
            old(self).wf(),
            array_at(old(self)@, addr) is Some,
            array_at(old(self)@, addr)->0.length < array_at(old(self)@, addr)->0.capacity,
        ensures
            final(self).wf(),
            final(self)@ == with_array(
                old(self)@,
                addr,
                array_pushed(array_at(old(self)@, addr)->0, bits),
            ),
            final(self).frontier() == old(self).frontier(),
    {
        let e = self.take(addr);
        let gc = e.gc;
        if let HeapCell::Array(mut a) = e.cell {
            a.slots.set(a.length as usize, bits);
            a.length = a.length + 1;
            self.put(addr, HeapEntry { gc, cell: HeapCell::Array(a) });
        }
        proof {
            assert(self@ =~= with_array(
                old(self)@,
                addr,
                array_pushed(array_at(old(self)@, addr)->0, bits),
            ));
        }
    }

    /// Records that the array at `to` replaced the one at `addr`, which only
    /// points there from now on.
    pub fn set_forward(&mut self, addr: usize, to: usize)
        requires
            old(self).wf(),
            array_at(old(self)@, addr) is Some,
            addr < to,
        ensures
            final(self).wf(),
            final(self)@ == with_array(old(self)@, addr, outgrown(to)),
            final(self).frontier() == old(self).frontier(),
    {
        let e = self.take(addr);
        let a = ArrayHeader { length: 0, capacity: 0, forward: to, slots: Vec::new() };
        assert(a@.slots =~= Seq::<u64>::empty());
        self.put(addr, HeapEntry { gc: e.gc, cell: HeapCell::Array(a) });
        proof {
            assert(self@ =~= with_array(old(self)@, addr, outgrown(to)));
        }
    }
}

/// An array that the one at `to` replaced.
pub open spec fn outgrown(to: usize) -> ArrayView {
    ArrayView { length: 0, capacity: 0, forward: to, slots: Seq::empty() }
}

/// `cells` with another collector's header at `addr`.
pub open spec fn with_gc(cells: Cells, addr: usize, gc: GcHeader) -> Cells {
    cells.insert(addr, EntryView { gc, cell: cells[addr].cell })
}

/// `cells` with the keys array at `addr` marked as used by several objects.
pub open spec fn shared(cells: Cells, addr: usize) -> Cells {
    with_gc(cells, addr, GcHeader { shape_shared: true, ..cells[addr].gc })
}

/// `cells` with another object at `addr`.
pub open spec fn with_object(cells: Cells, addr: usize, object: ObjectView) -> Cells {
    cells.insert(addr, EntryView { gc: cells[addr].gc, cell: CellView::Object(object) })
}

/// `cells` with another array at `addr`.
pub open spec fn with_array(cells: Cells, addr: usize, array: ArrayView) -> Cells {
    cells.insert(addr, EntryView { gc: cells[addr].gc, cell: CellView::Array(array) })
}

/// `cells` with `bits` in an inline slot of the object at `addr`.
pub open spec fn with_field(cells: Cells, addr: usize, index: int, bits: u64) -> Cells {
    let o = object_at(cells, addr)->0;
    with_object(cells, addr, ObjectView { fields: o.fields.update(index, bits), ..o })
}

/// `a` with one more element.
pub open spec fn array_pushed(a: ArrayView, bits: u64) -> ArrayView {
    ArrayView {
        length: (a.length + 1) as u32,
        slots: a.slots.update(a.length as int, bits),
        ..a
    }
}

// ---------------------------------------------------------------------------
// Laws
// ---------------------------------------------------------------------------
/// Every object has four inline slots, and more if it was made with more fields.
pub proof fn objects_have_four_inline_slots_or_more(header: ObjectHeader)
    ensures
        alloc_limit(header) >= 4,
        alloc_limit(header) >= header.field_count,
        alloc_limit(header) == 4 || alloc_limit(header) == header.field_count,
{
}

/// The header of the collector tells arrays, strings, objects and metadata
/// apart. A regular expression passes for an object there but is none.
pub proof fn cells_are_told_apart(cells: Cells, addr: usize)
    requires
        cells.contains_key(addr),
    ensures
        gc_type(cells[addr].cell) == GcType::Array <==> array_at(cells, addr) is Some,
        gc_type(cells[addr].cell) == GcType::String <==> string_at(cells, addr) is Some,
        gc_type(cells[addr].cell) == GcType::ObjectMeta <==> meta_at(cells, addr) is Some,
        gc_type(cells[addr].cell) == GcType::Object <==> object_at(cells, addr) is Some
            || regexp_at(cells, addr),
        !(object_at(cells, addr) is Some && regexp_at(cells, addr)),
{
}

/// Bytes that a cell needs at least: its header and what it holds.
pub open spec fn bytes_needed(cell: CellView) -> nat {
    match cell {
        CellView::Array(a) => 8 + 8 * a.slots.len(),
        CellView::String(s) => 16 + s.len(),
        CellView::Object(o) => 32 + 8 * o.fields.len(),
        CellView::Meta(_) => 24,
        CellView::RegExp => 32,
        CellView::Other => 8,
    }
}

/// A new cell lies behind everything that was there, with the header of the
/// collector before it, and takes the bytes it needs, rounded up to whole words
/// and no more. It holds what was put there and carries no mark; no other cell
/// changes.
pub proof fn new_cells_lie_behind_all_others(h: Space, cell: CellView)
    requires
        h.frontier % 8 == 0,
        h.frontier + 64 + bytes_needed(cell) <= 0x8000_0000,
    ensures
        ({
            let at = h.next_cell();
            let after = h.allocated(cell);
            &&& at == h.frontier + 8
            &&& after.cells.contains_key(at)
            &&& after.cells[at].cell == cell
            &&& after.cells[at].gc == (GcHeader {
                shape_shared: false,
                interned: false,
                layout: LayoutState::PointerFree,
                typed_descriptor: false,
                old_gen: false,
            })
            &&& at + bytes_needed(cell) <= after.frontier < at + bytes_needed(cell) + 8
            &&& after.frontier % 8 == 0
            &&& forall|a: usize|
                a != at ==> (#[trigger] after.cells.contains_key(a) <==> h.cells.contains_key(a))
                    && after.cells[a] == h.cells[a]
        }),
{
}

} // verus!
