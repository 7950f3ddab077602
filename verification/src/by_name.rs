//! Property reads by name, around the general read.
//!
//! The general by-name read and the forwarding of aliased receivers belong to
//! other parts of the runtime. As on the miss path of the inline cache, a read
//! here is run with the answers so far.

use std::collections::{HashMap, HashSet};
use vstd::prelude::*;

use crate::addr_class::{is_small_handle, small_handle};
use crate::heap::{frontier_after, object_at, string_at, CellView, Cells, Heap};
use crate::keys::{fresh_string, js_string_from_bytes, key_bytes};
use crate::method_names::{ascii, key_is};
use crate::object_ops;
use crate::object_ops::{property_set, property_written};
use crate::runtime::{ObjectRuntime, ObjectState};
use crate::shapes::{drew, ShapeIds};
use crate::value::{
    boxed, payload, string_boxes_round_trip, tagged, words_split_into_tag_and_payload, JSValue,
    ADDRESS_END, POINTER_TAG, STRING_TAG, TAG_UNDEFINED,
};
use crate::world::{kept, lemma_allocated, own_keys, slot_value, World};

verus! {

broadcast use vstd::std_specs::hash::group_hash_axioms;

/// Exclusive end of the addresses that are class ids.
pub const CLASS_ID_END: usize = 0x10000;

/// The names of the classes, and the classes whose `name` was deleted.
#[derive(Debug)]
pub struct ClassNames {
    pub names: HashMap<u32, Vec<u8>>,
    pub name_deleted: HashSet<u32>,
}

pub struct ClassNamesView {
    pub names: Map<u32, Seq<u8>>,
    pub name_deleted: Set<u32>,
}

impl View for ClassNames {
    type V = ClassNamesView;

    open spec fn view(&self) -> ClassNamesView {
        ClassNamesView {
            names: self.names@.map_values(|n: Vec<u8>| n@),
            name_deleted: self.name_deleted@,
        }
    }
}

impl ClassNames {
    pub fn new() -> (r: ClassNames)
        ensures
            r@.names == Map::<u32, Seq<u8>>::empty(),
            r@.name_deleted == Set::<u32>::empty(),
    {
        let r = ClassNames { names: HashMap::new(), name_deleted: HashSet::new() };
        assert(r@.names =~= Map::<u32, Seq<u8>>::empty());
        r
    }

    pub fn register(&mut self, class_id: u32, name: Vec<u8>)
        ensures
            final(self)@.names == old(self)@.names.insert(class_id, name@),
            final(self)@.name_deleted == old(self)@.name_deleted,
    {
        self.names.insert(class_id, name);
        proof {
            assert(self@.names =~= old(self)@.names.insert(class_id, name@));
        }
    }

    /// `delete C.name`.
    pub fn delete_name(&mut self, class_id: u32)
        ensures
            final(self)@.names == old(self)@.names,
            final(self)@.name_deleted == old(self)@.name_deleted.insert(class_id),
    {
        self.name_deleted.insert(class_id);
    }
}

/// What a by-name read may have to know.
#[derive(Clone, Copy, PartialEq, Eq, Structural, Debug)]
pub enum ByNameQuestion {
    /// What does the general read give?
    Value,
    /// What does the native handle that the receiver is an alias of give?
    Forwarded,
}

/// The answers so far.
#[derive(Clone, Copy, Debug)]
pub struct ByNameAnswers {
    pub value: Option<u64>,
    /// The inner `None` says that nothing is forwarded.
    pub forwarded: Option<Option<u64>>,
}

/// How a by-name read goes on.
#[derive(Clone, Copy, PartialEq, Eq, Structural, Debug)]
pub enum ByNameOutcome {
    Value(JSValue),
    /// Run again with this answered.
    Ask(ByNameQuestion),
}

/// The class name that a read gives: that of a class reference, for the key
/// `name`, unless it was deleted.
pub open spec fn class_name_read(
    cells: Cells,
    classes: ClassNamesView,
    obj: usize,
    key: usize,
) -> Option<Seq<u8>> {
    let class_id = obj as u32;
    if 0 < obj < CLASS_ID_END && key != 0 && string_at(cells, key) == Some(ascii("name"))
        && !classes.name_deleted.contains(class_id) && classes.names.contains_key(class_id) {
        Some(classes.names[class_id])
    } else {
        None
    }
}

/// How a read that gives no class name goes on: what the general read gives,
/// unless that is undefined and an alias has something to forward.
pub open spec fn general_read(answers: ByNameAnswers, alias_active: bool, key: usize)
    -> ByNameOutcome {
    match answers.value {
        None => ByNameOutcome::Ask(ByNameQuestion::Value),
        Some(bits) => if bits == TAG_UNDEFINED && alias_active && key != 0 {
            match answers.forwarded {
                None => ByNameOutcome::Ask(ByNameQuestion::Forwarded),
                Some(Some(f)) => ByNameOutcome::Value(JSValue { bits: f }),
                Some(None) => ByNameOutcome::Value(JSValue { bits }),
            }
        } else {
            ByNameOutcome::Value(JSValue { bits })
        },
    }
}

/// How a by-name read goes on. A class name is a new heap string.
pub open spec fn by_name_read(
    cells: Cells,
    next_cell: usize,
    classes: ClassNamesView,
    alias_active: bool,
    answers: ByNameAnswers,
    obj: usize,
    key: usize,
) -> ByNameOutcome {
    match class_name_read(cells, classes, obj, key) {
        Some(_) => ByNameOutcome::Value(JSValue { bits: boxed(STRING_TAG, next_cell) }),
        None => general_read(answers, alias_active, key),
    }
}

/// The cells after a by-name read.
pub open spec fn by_name_cells(
    cells: Cells,
    next_cell: usize,
    classes: ClassNamesView,
    obj: usize,
    key: usize,
) -> Cells {
    match class_name_read(cells, classes, obj, key) {
        Some(name) => cells.insert(next_cell, fresh_string(name)),
        None => cells,
    }
}

/// Room on the heap that a class name may take.
pub open spec fn name_fits(
    cells: Cells,
    room: int,
    classes: ClassNamesView,
    obj: usize,
    key: usize,
) -> bool {
    class_name_read(cells, classes, obj, key) matches Some(name) ==> name.len() + 64 <= room
}

/// Reads the key at `key` on `obj`: a class id, a handle or an address.
pub fn js_object_get_field_by_name_f64(
    heap: &mut Heap,
    classes: &ClassNames,
    alias_active: bool,
    answers: &ByNameAnswers,
    obj: usize,
    key: usize,
) -> (r: ByNameOutcome)
    requires
        old(heap).wf(),
        name_fits(old(heap)@, old(heap).room(), classes@, obj, key),
    ensures
        final(heap).wf(),
        r == by_name_read(
            old(heap)@,
            old(heap).next_cell(),
            classes@,
            alias_active,
            *answers,
            obj,
            key,
        ),
        final(heap)@ == by_name_cells(old(heap)@, old(heap).next_cell(), classes@, obj, key),
        final(heap).room() >= old(heap).room() - (match class_name_read(
            old(heap)@,
            classes@,
            obj,
            key,
        ) {
            Some(name) => name.len() + 64,
            None => 0,
        }),
{
    proof {
        reveal_strlit("name");
    }
    if obj > 0 && obj < CLASS_ID_END && key != 0 {
        let asks_name = match heap.string(key) {
            None => false,
            Some(s) => key_is(s.bytes.as_slice(), "name"),
        };
        let class_id: u32 = obj as u32;
        if asks_name && !classes.name_deleted.contains(&class_id) {
            if let Some(name) = classes.names.get(&class_id) {
                assert(classes@.names.contains_key(class_id));
                let s = js_string_from_bytes(heap, name.as_slice());
                return ByNameOutcome::Value(JSValue::string(s));
            }
        }
    }
    match answers.value {
        None => ByNameOutcome::Ask(ByNameQuestion::Value),
        Some(bits) => {
            if bits == TAG_UNDEFINED && alias_active && key != 0 {
                match answers.forwarded {
                    None => {
                        return ByNameOutcome::Ask(ByNameQuestion::Forwarded);
                    },
                    Some(Some(f)) => {
                        return ByNameOutcome::Value(JSValue::from_bits(f));
                    },
                    Some(None) => {},
                }
            }
            ByNameOutcome::Value(JSValue::from_bits(bits))
        },
    }
}

/// What a boxed receiver refers to: a native handle or something on the heap.
/// Numbers, strings and forged references refer to nothing.
pub open spec fn referent(cells: Cells, bits: u64) -> Option<usize> {
    if tagged(bits, POINTER_TAG) && (small_handle(payload(bits)) || cells.contains_key(
        payload(bits),
    )) {
        Some(payload(bits))
    } else {
        None
    }
}

/// How a read on a boxed receiver goes on.
pub open spec fn boxed_read(
    cells: Cells,
    next_cell: usize,
    classes: ClassNamesView,
    alias_active: bool,
    answers: ByNameAnswers,
    bits: u64,
    key: usize,
) -> ByNameOutcome {
    match referent(cells, bits) {
        None => ByNameOutcome::Value(JSValue { bits: TAG_UNDEFINED }),
        Some(obj) => by_name_read(cells, next_cell, classes, alias_active, answers, obj, key),
    }
}

/// The cells after a read on a boxed receiver.
pub open spec fn boxed_cells(
    cells: Cells,
    next_cell: usize,
    classes: ClassNamesView,
    bits: u64,
    key: usize,
) -> Cells {
    match referent(cells, bits) {
        None => cells,
        Some(obj) => by_name_cells(cells, next_cell, classes, obj, key),
    }
}

/// Reads the key at `key` on a boxed receiver that may be anything. What refers
/// to nothing has no properties: the read gives undefined and looks nowhere.
pub fn js_object_get_field_by_name_boxed(
    heap: &mut Heap,
    classes: &ClassNames,
    alias_active: bool,
    answers: &ByNameAnswers,
    receiver: JSValue,
    key: usize,
) -> (r: ByNameOutcome)
    requires
        old(heap).wf(),
        referent(old(heap)@, receiver.bits) matches Some(obj) ==> name_fits(
            old(heap)@,
            old(heap).room(),
            classes@,
            obj,
            key,
        ),
    ensures
        final(heap).wf(),
        r == boxed_read(
            old(heap)@,
            old(heap).next_cell(),
            classes@,
            alias_active,
            *answers,
            receiver.bits,
            key,
        ),
        final(heap)@ == boxed_cells(
            old(heap)@,
            old(heap).next_cell(),
            classes@,
            receiver.bits,
            key,
        ),
{
    if !receiver.is_pointer() {
        return ByNameOutcome::Value(JSValue::undefined());
    }
    let raw = receiver.as_pointer();
    if raw == 0 {
        assert(!heap@.contains_key(raw));
        return ByNameOutcome::Value(JSValue::undefined());
    }
    if !is_small_handle(raw) && heap.gc_type(raw).is_none() {
        return ByNameOutcome::Value(JSValue::undefined());
    }
    js_object_get_field_by_name_f64(heap, classes, alias_active, answers, raw, key)
}

/// A property id, resolved: an interned heap string, or a name that has no heap
/// string yet.
#[derive(Debug)]
pub enum KeyRef {
    Heap(usize),
    Inline(Vec<u8>),
}

/// The key that a reference stands for.
pub open spec fn key_address(key_ref: KeyRef, next_cell: usize) -> usize {
    match key_ref {
        KeyRef::Heap(addr) => addr,
        KeyRef::Inline(_) => next_cell,
    }
}

/// The cells once the key has a heap string.
pub open spec fn key_cells(cells: Cells, key_ref: KeyRef, next_cell: usize) -> Cells {
    match key_ref {
        KeyRef::Heap(_) => cells,
        KeyRef::Inline(name) => cells.insert(next_cell, fresh_string(name@)),
    }
}

/// The address below which everything is taken once the key has a heap string.
pub open spec fn key_frontier(key_ref: KeyRef, frontier: usize) -> usize {
    match key_ref {
        KeyRef::Heap(_) => frontier,
        KeyRef::Inline(name) => frontier_after(frontier, CellView::String(name@)),
    }
}

/// The state once the key has a heap string.
pub open spec fn key_given_string(s: ObjectState, key_ref: KeyRef) -> ObjectState {
    ObjectState {
        cells: key_cells(s.cells, key_ref, s.next_cell()),
        frontier: key_frontier(key_ref, s.frontier),
        ..s
    }
}

/// The name that a reference stands for.
pub open spec fn key_name(cells: Cells, key_ref: KeyRef) -> Seq<u8> {
    match key_ref {
        KeyRef::Heap(addr) => string_at(cells, addr)->0,
        KeyRef::Inline(name) => name@,
    }
}

/// Room that a key without a heap string takes.
pub open spec fn key_room(key_ref: KeyRef) -> nat {
    match key_ref {
        KeyRef::Heap(_) => 0,
        KeyRef::Inline(name) => name@.len() + 64,
    }
}

/// Gives the key a heap string if it has none.
pub fn property_key(heap: &mut Heap, key_ref: &KeyRef) -> (r: usize)
    requires
        old(heap).wf(),
        key_room(*key_ref) <= old(heap).room(),
    ensures
        final(heap).wf(),
        r == key_address(*key_ref, old(heap).next_cell()),
        final(heap)@ == key_cells(old(heap)@, *key_ref, old(heap).next_cell()),
        final(heap).frontier() == key_frontier(*key_ref, old(heap).frontier()),
        key_ref is Inline ==> r != 0 && !old(heap)@.contains_key(r),
        final(heap).room() >= old(heap).room() - key_room(*key_ref),
{
    match key_ref {
        KeyRef::Heap(addr) => *addr,
        KeyRef::Inline(name) => js_string_from_bytes(heap, name.as_slice()),
    }
}

/// How a read by property id goes on.
#[derive(Clone, Copy, PartialEq, Eq, Structural, Debug)]
pub enum ByIdOutcome {
    Value(JSValue),
    /// `js_object_get_field_by_name_f64` reads, with this key.
    ByName { key: usize },
}

/// How a read by property id goes on. `fresh` is where a key without a heap string
/// gets one.
pub open spec fn by_id_read(key_ref: Option<&KeyRef>, fresh: usize) -> ByIdOutcome {
    match key_ref {
        None => ByIdOutcome::Value(JSValue { bits: TAG_UNDEFINED }),
        Some(k) => ByIdOutcome::ByName { key: key_address(*k, fresh) },
    }
}

/// Turns a read by property id into one by name. An id that no property has
/// reads as undefined.
pub fn js_object_get_field_by_property_id_f64(heap: &mut Heap, key_ref: Option<&KeyRef>) -> (r:
    ByIdOutcome)
    requires
        old(heap).wf(),
        key_ref matches Some(k) ==> key_room(*k) <= old(heap).room(),
    ensures
        final(heap).wf(),
        r == by_id_read(key_ref, old(heap).next_cell()),
        final(heap)@ == (match key_ref {
            None => old(heap)@,
            Some(k) => key_cells(old(heap)@, *k, old(heap).next_cell()),
        }),
        key_ref matches Some(k) ==> final(heap).room() >= old(heap).room() - key_room(*k),
{
    match key_ref {
        None => ByIdOutcome::Value(JSValue::undefined()),
        Some(k) => ByIdOutcome::ByName { key: property_key(heap, k) },
    }
}

/// Turns a write by property id into one by name. An id that no property has
/// is ignored.
pub fn js_object_set_field_by_property_id(
    rt: &mut ObjectRuntime,
    ids: &mut ShapeIds,
    obj: usize,
    key_ref: Option<&KeyRef>,
    value: JSValue,
)
    requires
        old(rt).wf(),
        old(rt).draws_from(*old(ids)),
        object_at(old(rt).heap@, obj) is Some,
        key_ref matches Some(k) ==> {
            &&& k matches KeyRef::Heap(addr) ==> string_at(old(rt).heap@, *addr) is Some
            &&& key_room(*k) + object_ops::key_room(old(rt).heap@, obj) <= old(rt).heap.room()
        },
    ensures
        final(rt).wf(),
        drew(old(rt).shapes@, old(ids).next, final(rt).shapes@, final(ids).next),
        match key_ref {
            None => *final(rt) == *old(rt) && final(ids).next == old(ids).next,
            Some(k) => {
                let spent = key_room(*k) + object_ops::key_room(old(rt).heap@, obj);
                &&& final(rt).heap.room() >= old(rt).heap.room() - spent
                &&& property_set(
                    old(rt).world(),
                    final(rt).world(),
                    obj,
                    key_name(old(rt).heap@, *k),
                    value.bits,
                )
                &&& final(rt).state(final(ids).next) == property_written(
                    key_given_string(old(rt).state(old(ids).next), *k),
                    obj,
                    key_address(*k, old(rt).heap.next_cell()),
                    value.bits,
                )
            },
        },
{
    if let Some(k) = key_ref {
        let ghost w0 = rt.world();
        let key = property_key(&mut rt.heap, k);
        let ghost keyed = *rt;
        proof {
            if k is Inline {
                lemma_allocated(w0, key, fresh_string(key_name(w0.cells, *k)));
            }
            let w1 = rt.world();
            assert(w1 == (World { cells: rt.heap@, ..w0 }));
            assert(kept(w0.cells, w1.cells));
            assert forall|o: usize| #[trigger] object_at(w1.cells, o) == object_at(
                w0.cells,
                o,
            ) by {}
            assert forall|o: usize, n: Seq<u8>|
                object_at(w0.cells, o) is Some implies #[trigger] w1.property(o, n)
                == w0.property(o, n) by {
                let at = own_keys(w0.cells, o).index_of(n);
                assert(slot_value(w1.cells, w1.overflow, o, at) == slot_value(
                    w0.cells,
                    w0.overflow,
                    o,
                    at,
                ));
            }
        }
        object_ops::js_object_set_field_by_name(rt, ids, obj, key, value);
        proof {
            assert(keyed.state(old(ids).next) == key_given_string(
                old(rt).state(old(ids).next),
                *k,
            ));
            assert forall|o: usize| o != obj implies #[trigger] object_at(rt.heap@, o)
                == object_at(w0.cells, o) by {
                assert(object_at(keyed.heap@, o) == object_at(w0.cells, o));
            }
        }
    }
}

// ---------------------------------------------------------------------------
// Laws
// ---------------------------------------------------------------------------
/// A read of the `name` of a class gives a string that spells it.
pub proof fn class_names_read_back(
    cells: Cells,
    next_cell: usize,
    classes: ClassNamesView,
    alias_active: bool,
    answers: ByNameAnswers,
    obj: usize,
    key: usize,
)
    requires
        next_cell < ADDRESS_END,
        class_name_read(cells, classes, obj, key) is Some,
    ensures
        ({
            let r = by_name_read(cells, next_cell, classes, alias_active, answers, obj, key);
            let after = by_name_cells(cells, next_cell, classes, obj, key);
            &&& r is Value
            &&& key_bytes(after, r->Value_0.bits) == class_name_read(
                cells,
                classes,
                obj,
                key,
            )
        }),
{
    string_boxes_round_trip(next_cell);
}

/// A read on a boxed receiver is the read of the handle or the heap address in
/// the box; any other receiver reads as undefined and changes nothing.
pub proof fn boxed_reads_are_reads_of_the_referent(
    cells: Cells,
    next_cell: usize,
    classes: ClassNamesView,
    alias_active: bool,
    answers: ByNameAnswers,
    bits: u64,
    key: usize,
)
    requires
        !cells.contains_key(0),
    ensures
        ({
            let raw = payload(bits);
            let r = boxed_read(cells, next_cell, classes, alias_active, answers, bits, key);
            let after = boxed_cells(cells, next_cell, classes, bits, key);
            if tagged(bits, POINTER_TAG) && raw != 0 && (small_handle(raw) || cells.contains_key(
                raw,
            )) {
                &&& r == by_name_read(cells, next_cell, classes, alias_active, answers, raw, key)
                &&& after == by_name_cells(cells, next_cell, classes, raw, key)
            } else {
                &&& r == ByNameOutcome::Value(JSValue { bits: TAG_UNDEFINED })
                &&& after == cells
            }
        }),
{
}

/// A write by property id reads back, by any id or key with the same name: once
/// the key of the read has a heap string, the object has the written value
/// under it, and the by-name read gives that value unless it is undefined.
pub proof fn writes_by_property_id_read_back(
    before: ObjectRuntime,
    after: ObjectRuntime,
    obj: usize,
    written_by: KeyRef,
    read_by: KeyRef,
    bits: u64,
    classes: ClassNamesView,
    alias_active: bool,
    forwarded: Option<Option<u64>>,
)
    requires
        after.wf(),
        object_at(before.heap@, obj) is Some,
        property_set(
            before.world(),
            after.world(),
            obj,
            key_name(before.heap@, written_by),
            bits,
        ),
        key_name(after.heap@, read_by) == key_name(before.heap@, written_by),
        read_by matches KeyRef::Heap(addr) ==> string_at(after.heap@, addr) is Some,
        key_room(read_by) <= after.heap.room(),
    ensures
        ({
            let fresh = after.heap.next_cell();
            let key = key_address(read_by, fresh);
            let cells = key_cells(after.heap@, read_by, fresh);
            let w = World { cells, ..after.world() };
            let answers = ByNameAnswers { value: Some(bits), forwarded };
            &&& string_at(cells, key) == Some(key_name(before.heap@, written_by))
            &&& w.property(obj, string_at(cells, key)->0) == Some(bits)
            &&& forall|next_cell: usize|
                bits != TAG_UNDEFINED ==> #[trigger] by_name_read(
                    cells,
                    next_cell,
                    classes,
                    alias_active,
                    answers,
                    obj,
                    key,
                ) == ByNameOutcome::Value(JSValue { bits })
        }),
{
    let fresh = after.heap.next_cell();
    let name = key_name(before.heap@, written_by);
    let cells = key_cells(after.heap@, read_by, fresh);
    let w0 = after.world();
    let w = World { cells, ..w0 };
    assert(object_at(after.heap@, obj) is Some);
    assert(after.heap@.contains_key(obj));
    if read_by is Inline {
        assert(!after.heap@.contains_key(fresh));
        lemma_allocated(w0, fresh, fresh_string(name));
        assert(own_keys(cells, obj) == own_keys(w0.cells, obj));
        let at = own_keys(cells, obj).index_of(name);
        assert(slot_value(cells, w.overflow, obj, at) == slot_value(
            w0.cells,
            w0.overflow,
            obj,
            at,
        ));
    }
}

/// A value that the general read found is never replaced by a forwarded one.
pub proof fn found_values_are_not_forwarded(
    answers: ByNameAnswers,
    alias_active: bool,
    key: usize,
)
    requires
        answers.value matches Some(bits) && bits != TAG_UNDEFINED,
    ensures
        general_read(answers, alias_active, key) == ByNameOutcome::Value(
            JSValue { bits: answers.value->0 },
        ),
{
}

/// A class reference has the name that was registered last, from the next read
/// on, unless the name was deleted; registering and deleting touch one class.
pub proof fn registered_names_are_read_until_deleted(
    cells: Cells,
    classes: ClassNamesView,
    class_id: u32,
    name: Seq<u8>,
    obj: usize,
    key: usize,
)
    requires
        0 < class_id < 0x10000,
        key != 0,
        string_at(cells, key) == Some(seq![110u8, 97, 109, 101]),
        obj != class_id,
    ensures
        ({
            let named = ClassNamesView { names: classes.names.insert(class_id, name), ..classes };
            let deleted = ClassNamesView {
                name_deleted: classes.name_deleted.insert(class_id),
                ..named
            };
            let was = class_name_read(cells, classes, obj, key);
            &&& !classes.name_deleted.contains(class_id) ==> class_name_read(
                cells,
                named,
                class_id as usize,
                key,
            ) == Some(name)
            &&& class_name_read(cells, deleted, class_id as usize, key) is None
            &&& class_name_read(cells, named, obj, key) == was
            &&& class_name_read(cells, deleted, obj, key) == was
        }),
{
    reveal_strlit("name");
    assert(ascii("name") =~= seq![110u8, 97, 109, 101]);
}

/// Only the key `name` of a registered class gives a class name. Every other read
/// is the general one and leaves the heap as it is.
pub proof fn other_reads_are_general(
    cells: Cells,
    next_cell: usize,
    classes: ClassNamesView,
    alias_active: bool,
    answers: ByNameAnswers,
    obj: usize,
    key: usize,
)
    requires
        obj == 0 || obj > 0xFFFF || string_at(cells, key) != Some(seq![110u8, 97, 109, 101])
            || !classes.names.contains_key(obj as u32) || classes.name_deleted.contains(
            obj as u32,
        ),
    ensures
        ({
            let r = by_name_read(cells, next_cell, classes, alias_active, answers, obj, key);
            &&& by_name_cells(cells, next_cell, classes, obj, key) == cells
            &&& match answers.value {
                None => r == ByNameOutcome::Ask(ByNameQuestion::Value),
                Some(bits) => if bits != 0x7FFC_0000_0000_0001 || !alias_active || key == 0 {
                    r == ByNameOutcome::Value(JSValue { bits })
                } else {
                    match answers.forwarded {
                        None => r == ByNameOutcome::Ask(ByNameQuestion::Forwarded),
                        Some(Some(f)) => r == ByNameOutcome::Value(JSValue { bits: f }),
                        Some(None) => r == ByNameOutcome::Value(
                            JSValue { bits: 0x7FFC_0000_0000_0001 },
                        ),
                    }
                },
            }
        }),
{
    reveal_strlit("name");
    assert(ascii("name") =~= seq![110u8, 97, 109, 101]);
}

/// A receiver refers to something exactly if it is a reference to a handle or to
/// a cell of the heap.
pub proof fn references_refer_to_handles_and_cells(cells: Cells, addr: usize, bits: u64)
    requires
        addr < 0x0001_0000_0000_0000,
        bits & 0xFFFF_0000_0000_0000u64 != 0x7FFD_0000_0000_0000,
    ensures
        referent(cells, bits) is None,
        referent(cells, (0x7FFD_0000_0000_0000 + addr) as u64) == (if 1 <= addr <= 0xF_FFFF
            || cells.contains_key(addr) {
            Some(addr)
        } else {
            None
        }),
{
    let reference = (0x7FFD_0000_0000_0000 + addr) as u64;
    words_split_into_tag_and_payload(reference, addr);
    assert(reference % 0x0001_0000_0000_0000 == addr);
}

/// A property id stands for the string it names: the key that a read or a write
/// by id goes on with spells it, and at most that string is new on the heap.
pub proof fn property_ids_stand_for_their_names(cells: Cells, key_ref: KeyRef, fresh: usize)
    requires
        !cells.contains_key(fresh),
        key_ref matches KeyRef::Heap(addr) ==> string_at(cells, addr) is Some,
    ensures
        ({
            let key = key_address(key_ref, fresh);
            let after = key_cells(cells, key_ref, fresh);
            &&& string_at(after, key) == (match key_ref {
                KeyRef::Heap(addr) => string_at(cells, addr),
                KeyRef::Inline(name) => Some(name@),
            })
            &&& string_at(after, key) == Some(key_name(cells, key_ref))
            &&& key_ref matches KeyRef::Heap(addr) ==> key == addr && after == cells
            &&& forall|a: usize|
                a != fresh ==> (#[trigger] after.contains_key(a) <==> cells.contains_key(a))
                    && after[a] == cells[a]
        }),
{
}

/// A read by an id that no property has gives undefined; by any other it is the
/// read by the name that the id stands for.
pub proof fn reads_by_id_are_reads_by_name(cells: Cells, key_ref: KeyRef, fresh: usize)
    requires
        !cells.contains_key(fresh),
        key_ref matches KeyRef::Heap(addr) ==> string_at(cells, addr) is Some,
    ensures
        by_id_read(None, fresh) == ByIdOutcome::Value(JSValue { bits: 0x7FFC_0000_0000_0001 }),
        by_id_read(Some(&key_ref), fresh) matches ByIdOutcome::ByName { key } && string_at(
            key_cells(cells, key_ref, fresh),
            key,
        ) == Some(key_name(cells, key_ref)),
{
}

} // verus!
