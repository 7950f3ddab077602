//! The miss path of the per-site inline cache of property reads.
//!
//! Compiled code keeps a token and a slot per read site. If the receiver's
//! token matches, it loads the slot and never comes here. Else the read is
//! resolved here, and the site is primed for the next receiver of that shape.
//!
//! Some receivers are no plain objects: proxies, closures, buffers, native
//! handles. What they are only their own modules know, so the resolution asks:
//! it is run with the answers so far and says either how to read or what it
//! has to know next.

use vstd::prelude::*;

use crate::addr_class::{
    above_handle_band, is_above_handle_band, is_proxy_id_band, is_small_handle, proxy_id_band,
    small_handle,
};
use crate::heap::{
    alloc_limit, array_at, object_at, string_at, Cells, Heap, ObjectHeader,
    FIRST_PAGE_SIZE, GC_HEADER_SIZE, INLINE_SLOT_FLOOR, OBJECT_TYPE_REGULAR,
};
use crate::key_lists::elements;
use crate::keys::{dense_len, js_string_equals, strings_equal};
use crate::method_names::{ascii, is_timer_handle_method_key, key_is, timer_handle_method_key};
use crate::object_slots::{stamp_true, with_header};
use crate::shapes::{
    ensured, ensured_next, ids_distinct, ids_drawn, ids_sound, ids_stay_sound, is_shape_id,
    new_ids_are_drawn, only_new_ids, shape_id, shape_id_for_keys_ensure, ShapeIds, ShapeTable,
    Shapes, PIC_ID_TOKEN_BIT,
};
use crate::value::{
    boxed, payload, tagged, JSValue, ADDRESS_END, INT32_TAG, POINTER_MASK, POINTER_TAG,
    SHORT_STRING_TAG, STRING_TAG, TAG_MASK, TAG_NULL, TAG_UNDEFINED,
};
use crate::world::{keys_ok, lemma_headed, lemma_recorded, lemma_spelled, own_keys, World};

verus! {

// ---------------------------------------------------------------------------
// Receivers that are no plain objects
// ---------------------------------------------------------------------------
/// What the resolution may have to know of a receiver or of the key on it.
#[derive(Clone, Copy, PartialEq, Eq, Structural, Debug)]
pub enum IcQuestion {
    /// Is the receiver a registered proxy?
    IsProxy,
    /// Is the receiver a closure, and what has it under the key?
    ClosureProperty,
    IsBuffer,
    IsTypedArray,
    /// Is the receiver the id of a live timer?
    IsTimer,
    /// What has a text encoder or decoder handle under the key?
    TextProperty,
    /// What does the registered dispatcher of native handles give for the key?
    HandleProperty,
    /// What does the key give on the prototype that was set on the handle?
    InheritedProperty,
}

/// The answers so far; `None` where nothing was asked yet.
#[derive(Clone, Copy, Debug)]
pub struct IcAnswers {
    pub is_proxy: Option<bool>,
    pub closure_property: Option<Option<u64>>,
    pub is_buffer: Option<bool>,
    pub is_typed_array: Option<bool>,
    pub is_timer: Option<bool>,
    pub text_property: Option<Option<u64>>,
    /// The inner `None` says that no dispatcher is registered.
    pub handle_property: Option<Option<u64>>,
    /// The inner `None` says that no prototype was set or it lacks the key.
    pub inherited_property: Option<Option<u64>>,
}

impl IcAnswers {
    pub fn none() -> (r: IcAnswers)
        ensures
            r.is_proxy is None,
            r.closure_property is None,
            r.is_buffer is None,
            r.is_typed_array is None,
            r.is_timer is None,
            r.text_property is None,
            r.handle_property is None,
            r.inherited_property is None,
    {
        IcAnswers {
            is_proxy: None,
            closure_property: None,
            is_buffer: None,
            is_typed_array: None,
            is_timer: None,
            text_property: None,
            handle_property: None,
            inherited_property: None,
        }
    }

    /// Nothing is left to ask.
    pub open spec fn complete(self) -> bool {
        &&& self.is_proxy is Some
        &&& self.closure_property is Some
        &&& self.is_buffer is Some
        &&& self.is_typed_array is Some
        &&& self.is_timer is Some
        &&& self.text_property is Some
        &&& self.handle_property is Some
        &&& self.inherited_property is Some
    }

    /// Whatever is answered here is answered the same there.
    pub open spec fn extended_by(self, later: IcAnswers) -> bool {
        &&& self.is_proxy is Some ==> later.is_proxy == self.is_proxy
        &&& self.closure_property is Some ==> later.closure_property == self.closure_property
        &&& self.is_buffer is Some ==> later.is_buffer == self.is_buffer
        &&& self.is_typed_array is Some ==> later.is_typed_array == self.is_typed_array
        &&& self.is_timer is Some ==> later.is_timer == self.is_timer
        &&& self.text_property is Some ==> later.text_property == self.text_property
        &&& self.handle_property is Some ==> later.handle_property == self.handle_property
        &&& self.inherited_property is Some ==> later.inherited_property
            == self.inherited_property
    }

    /// Is a question answered?
    pub open spec fn answers(self, question: IcQuestion) -> bool {
        match question {
            IcQuestion::IsProxy => self.is_proxy is Some,
            IcQuestion::ClosureProperty => self.closure_property is Some,
            IcQuestion::IsBuffer => self.is_buffer is Some,
            IcQuestion::IsTypedArray => self.is_typed_array is Some,
            IcQuestion::IsTimer => self.is_timer is Some,
            IcQuestion::TextProperty => self.text_property is Some,
            IcQuestion::HandleProperty => self.handle_property is Some,
            IcQuestion::InheritedProperty => self.inherited_property is Some,
        }
    }
}

/// How a read goes on.
#[derive(Clone, Copy, PartialEq, Eq, Structural, Debug)]
pub enum IcOutcome {
    /// The read gives this.
    Value(JSValue),
    /// The general by-name read of the same receiver and key decides.
    ByName,
    /// The `get` trap of the proxy decides.
    ProxyGet { proxy: JSValue, key: JSValue },
    /// The read gives the method of the key's name, bound to this receiver.
    BindMethod { this: JSValue },
    /// Run again with this answered.
    Ask(IcQuestion),
}

/// The `get` trap for the proxy with the id `obj`.
pub open spec fn proxy_get(obj: usize, key: usize) -> IcOutcome {
    IcOutcome::ProxyGet {
        proxy: JSValue { bits: boxed(POINTER_TAG, obj) },
        key: JSValue { bits: boxed(STRING_TAG, key) },
    }
}

pub open spec fn gives(bits: u64) -> IcOutcome {
    IcOutcome::Value(JSValue { bits })
}

/// What a native handle gives once it is known to be no proxy. Methods of
/// timers come first, then what text handles have, then the dispatcher. A
/// handle whose `constructor` the dispatcher does not know has an empty object
/// for it; any other key that it does not know may be on a prototype that was
/// set on the handle.
pub open spec fn handle_read(
    answers: IcAnswers,
    obj: usize,
    key: Seq<u8>,
    null_object: usize,
) -> IcOutcome {
    if timer_handle_method_key(key) && answers.is_timer is None {
        IcOutcome::Ask(IcQuestion::IsTimer)
    } else if timer_handle_method_key(key) && answers.is_timer == Some(true) {
        IcOutcome::BindMethod { this: JSValue { bits: boxed(POINTER_TAG, obj) } }
    } else if answers.text_property is None {
        IcOutcome::Ask(IcQuestion::TextProperty)
    } else if answers.text_property->0 is Some {
        gives(answers.text_property->0->0)
    } else if answers.handle_property is None {
        IcOutcome::Ask(IcQuestion::HandleProperty)
    } else if key == ascii("constructor") {
        match answers.handle_property->0 {
            Some(bits) => if bits != TAG_UNDEFINED {
                gives(bits)
            } else {
                gives(boxed(POINTER_TAG, null_object))
            },
            None => gives(boxed(POINTER_TAG, null_object)),
        }
    } else {
        match answers.handle_property->0 {
            None => gives(TAG_UNDEFINED),
            Some(bits) => if bits != TAG_UNDEFINED {
                gives(bits)
            } else {
                match answers.inherited_property {
                    None => IcOutcome::Ask(IcQuestion::InheritedProperty),
                    Some(Some(v)) => gives(v),
                    Some(None) => gives(TAG_UNDEFINED),
                }
            },
        }
    }
}

/// How a read goes on if the receiver is no ordinary heap object; `None` if it
/// may be one. `key` is the address of the key and `name` its bytes. Only an
/// address above the handles is asked about as a closure, buffer or typed
/// array, for those answers look into the memory there.
pub open spec fn exotic_read(
    answers: IcAnswers,
    obj: usize,
    key: usize,
    name: Seq<u8>,
    null_object: usize,
) -> Option<IcOutcome> {
    if key != 0 && tagged(obj as u64, SHORT_STRING_TAG) {
        Some(IcOutcome::ByName)
    } else if obj == 0 || key == 0 {
        Some(gives(TAG_UNDEFINED))
    } else if small_handle(obj) {
        match answers.is_proxy {
            None => Some(IcOutcome::Ask(IcQuestion::IsProxy)),
            Some(true) => Some(proxy_get(obj, key)),
            Some(false) => Some(handle_read(answers, obj, name, null_object)),
        }
    } else if answers.closure_property is None {
        Some(IcOutcome::Ask(IcQuestion::ClosureProperty))
    } else if answers.closure_property->0 is Some {
        Some(gives(answers.closure_property->0->0))
    } else if answers.is_buffer is None {
        Some(IcOutcome::Ask(IcQuestion::IsBuffer))
    } else if answers.is_buffer == Some(true) {
        Some(IcOutcome::ByName)
    } else if answers.is_typed_array is None {
        Some(IcOutcome::Ask(IcQuestion::IsTypedArray))
    } else if answers.is_typed_array == Some(true) {
        Some(IcOutcome::ByName)
    } else {
        None
    }
}

/// What a native handle that is no proxy gives for the key `name`.
fn read_handle(answers: &IcAnswers, obj: usize, name: &[u8], null_object: usize) -> (r: IcOutcome)
    ensures
        r == handle_read(*answers, obj, name@, null_object),
{
    if is_timer_handle_method_key(name) {
        match answers.is_timer {
            None => {
                return IcOutcome::Ask(IcQuestion::IsTimer);
            },
            Some(known) => if known {
                return IcOutcome::BindMethod { this: JSValue::pointer(obj) };
            },
        }
    }
    match answers.text_property {
        None => {
            return IcOutcome::Ask(IcQuestion::TextProperty);
        },
        Some(Some(bits)) => {
            return IcOutcome::Value(JSValue::from_bits(bits));
        },
        Some(None) => {},
    }
    let dispatched = match answers.handle_property {
        None => {
            return IcOutcome::Ask(IcQuestion::HandleProperty);
        },
        Some(d) => d,
    };
    proof {
        reveal_strlit("constructor");
    }
    if key_is(name, "constructor") {
        if let Some(bits) = dispatched {
            if bits != TAG_UNDEFINED {
                return IcOutcome::Value(JSValue::from_bits(bits));
            }
        }
        return IcOutcome::Value(JSValue::pointer(null_object));
    }
    match dispatched {
        None => IcOutcome::Value(JSValue::undefined()),
        Some(bits) => {
            if bits != TAG_UNDEFINED {
                return IcOutcome::Value(JSValue::from_bits(bits));
            }
            match answers.inherited_property {
                None => IcOutcome::Ask(IcQuestion::InheritedProperty),
                Some(Some(v)) => IcOutcome::Value(JSValue::from_bits(v)),
                Some(None) => IcOutcome::Value(JSValue::undefined()),
            }
        },
    }
}

/// Sorts out the receivers that are no ordinary heap objects.
pub fn read_exotic(
    heap: &Heap,
    answers: &IcAnswers,
    obj: usize,
    key: usize,
    null_object: usize,
) -> (r: Option<IcOutcome>)
    requires
        key != 0 ==> string_at(heap@, key) is Some,
    ensures
        r == exotic_read(*answers, obj, key, string_at(heap@, key)->0, null_object),
{
    if key != 0 && (obj as u64) & TAG_MASK == SHORT_STRING_TAG {
        return Some(IcOutcome::ByName);
    }
    if obj == 0 || key == 0 {
        return Some(IcOutcome::Value(JSValue::undefined()));
    }
    if is_proxy_id_band(obj) {
        match answers.is_proxy {
            None => {
                return Some(IcOutcome::Ask(IcQuestion::IsProxy));
            },
            Some(proxy) => if proxy {
                return Some(
                    IcOutcome::ProxyGet { proxy: JSValue::pointer(obj), key: JSValue::string(key) },
                );
            },
        }
    }
    if is_above_handle_band(obj) {
        match answers.closure_property {
            None => {
                return Some(IcOutcome::Ask(IcQuestion::ClosureProperty));
            },
            Some(Some(bits)) => {
                return Some(IcOutcome::Value(JSValue::from_bits(bits)));
            },
            Some(None) => {},
        }
        match answers.is_buffer {
            None => {
                return Some(IcOutcome::Ask(IcQuestion::IsBuffer));
            },
            Some(buffer) => if buffer {
                return Some(IcOutcome::ByName);
            },
        }
        match answers.is_typed_array {
            None => {
                return Some(IcOutcome::Ask(IcQuestion::IsTypedArray));
            },
            Some(typed) => if typed {
                return Some(IcOutcome::ByName);
            },
        }
    }
    if is_small_handle(obj) {
        match answers.is_proxy {
            None => {
                return Some(IcOutcome::Ask(IcQuestion::IsProxy));
            },
            Some(proxy) => if proxy {
                return Some(
                    IcOutcome::ProxyGet { proxy: JSValue::pointer(obj), key: JSValue::string(key) },
                );
            },
        }
        return match heap.string(key) {
            None => None,
            Some(s) => Some(read_handle(answers, obj, s.bytes.as_slice(), null_object)),
        };
    }
    None
}

// ---------------------------------------------------------------------------
// Ordinary objects
// ---------------------------------------------------------------------------
/// What a read site remembers: a token of the shape, and the slot that the key
/// has in it.
#[derive(Clone, Copy, PartialEq, Eq, Structural, Debug)]
pub struct PicCache {
    pub token: i64,
    pub slot: i64,
}

/// A keys array at or below this address is no heap array.
pub const KEYS_ADDRESS_FLOOR: usize = 0x10000;

/// Is the keys array safe as a token? The hit path compares the address and
/// nothing else, so the address must never be recycled; shared arrays are kept
/// alive for good.
pub open spec fn cacheable(cells: Cells, keys: usize) -> bool {
    array_at(cells, keys) is Some && cells[keys].gc.shape_shared
}

pub fn keys_cacheable_for_pic(heap: &Heap, keys: usize) -> (r: bool)
    requires
        heap.wf(),
    ensures
        r == cacheable(heap@, keys),
{
    if keys < GC_HEADER_SIZE + FIRST_PAGE_SIZE {
        assert(!heap@.contains_key(keys));
        return false;
    }
    if heap.array(keys).is_none() {
        return false;
    }
    match heap.gc_header(keys) {
        None => false,
        Some(h) => h.shape_shared,
    }
}

/// Can a read of `obj` be resolved by its keys array? Not while accessors are
/// in use anywhere, for a direct load would pass them by.
pub open spec fn resolvable(cells: Cells, accessors_in_use: bool, obj: usize) -> bool {
    &&& !accessors_in_use
    &&& object_at(cells, obj) is Some
    &&& object_at(cells, obj)->0.header.object_type == OBJECT_TYPE_REGULAR
    &&& object_at(cells, obj)->0.header.keys_array > KEYS_ADDRESS_FLOOR
    &&& array_at(cells, object_at(cells, obj)->0.header.keys_array) is Some
}

/// A plain object without a stamp gets one at its first read.
pub open spec fn wants_stamp(header: ObjectHeader) -> bool {
    header.class_id == 0 && !shape_id(header.parent_class_id)
}

/// The records after the read of an object with this header.
pub open spec fn read_shapes(shapes: Shapes, next: u32, header: ObjectHeader) -> Shapes {
    if wants_stamp(header) {
        ensured(shapes, next, header.keys_array)
    } else {
        shapes
    }
}

/// The counter of ids after the read of an object with this header.
pub open spec fn read_next(shapes: Shapes, next: u32, header: ObjectHeader) -> u32 {
    if wants_stamp(header) {
        ensured_next(shapes, next, header.keys_array)
    } else {
        next
    }
}

/// The header after the read.
pub open spec fn read_header(shapes: Shapes, next: u32, header: ObjectHeader) -> ObjectHeader {
    let id = read_shapes(shapes, next, header)[header.keys_array].shape_id;
    if wants_stamp(header) && id != 0 {
        ObjectHeader { parent_class_id: id, ..header }
    } else {
        header
    }
}

/// The first element, from `i` on, that is the string at `key`.
pub open spec fn key_position(cells: Cells, elements: Seq<u64>, key: usize, i: int) -> Option<int>
    decreases elements.len() - i,
{
    if i >= elements.len() {
        None
    } else if strings_equal(cells, payload(elements[i]), key) {
        Some(i)
    } else {
        key_position(cells, elements, key, i + 1)
    }
}

proof fn lemma_same_strings_same_position(
    cells: Cells,
    after: Cells,
    elements: Seq<u64>,
    key: usize,
    i: int,
)
    requires
        forall|a: usize| #[trigger] string_at(after, a) == string_at(cells, a),
    ensures
        key_position(after, elements, key, i) == key_position(cells, elements, key, i),
    decreases elements.len() - i,
{
    if i < elements.len() {
        lemma_same_strings_same_position(cells, after, elements, key, i + 1);
    }
}

/// The keys of an object as its header has them.
pub open spec fn listed_keys(cells: Cells, header: ObjectHeader) -> Seq<u64> {
    let a = array_at(cells, header.keys_array)->0;
    a.slots.take(dense_len(a))
}

/// The inline slot that a read of `key` loads; `None` if the object lacks the
/// key or has it outside its inline slots.
pub open spec fn inline_slot(cells: Cells, header: ObjectHeader, key: usize) -> Option<int> {
    match key_position(cells, listed_keys(cells, header), key, 0) {
        Some(i) => if i < alloc_limit(header) {
            Some(i)
        } else {
            None
        },
        None => None,
    }
}

/// The token of an object with this header: its stamp lifted above all
/// addresses, or, if it carries none, its keys array.
pub open spec fn token_of(header: ObjectHeader) -> i64 {
    if header.class_id == 0 && shape_id(header.parent_class_id) {
        (header.parent_class_id as u64 | PIC_ID_TOKEN_BIT) as i64
    } else {
        header.keys_array as i64
    }
}

/// The site after a read of an object with this header found the key at
/// `slot`. Ids are never reused, so a stamp is always a safe token.
pub open spec fn primed(
    cells: Cells,
    header: ObjectHeader,
    slot: int,
    cache: PicCache,
) -> PicCache {
    if (header.class_id == 0 && shape_id(header.parent_class_id)) || cacheable(
        cells,
        header.keys_array,
    ) {
        PicCache { token: token_of(header), slot: slot as i64 }
    } else {
        cache
    }
}

/// The position of the string at `key` among the elements of the array at
/// `keys`.
fn find_key(heap: &Heap, keys: usize, key: usize) -> (r: Option<usize>)
    requires
        heap.wf(),
        array_at(heap@, keys) is Some,
    ensures
        ({
            let a = array_at(heap@, keys)->0;
            match key_position(heap@, a.slots.take(dense_len(a)), key, 0) {
                Some(i) => r == Some(i as usize) && 0 <= i <= usize::MAX,
                None => r is None,
            }
        }),
{
    assert(heap@.contains_key(keys));
    match heap.array(keys) {
        None => None,
        Some(a) => {
            let count: u32 = if a.length <= a.capacity { a.length } else { a.capacity };
            let ghost elements = a.slots@.take(count as int);
            let mut i: usize = 0;
            while i < count as usize
                invariant
                    i <= count,
                    count <= a.slots@.len(),
                    elements == a.slots@.take(count as int),
                    array_at(heap@, keys) == Some(a@),
                    count == dense_len(a@),
                    key_position(heap@, elements, key, i as int) == key_position(
                        heap@,
                        elements,
                        key,
                        0,
                    ),
                decreases count - i,
            {
                let k = JSValue::from_bits(a.slots[i]).as_pointer();
                assert(elements[i as int] == a.slots@[i as int]);
                if js_string_equals(heap, k, key) {
                    return Some(i);
                }
                i += 1;
            }
            None
        },
    }
}

/// All that the read of an ordinary object may change.
pub struct ReadState {
    pub cells: Cells,
    pub shapes: Shapes,
    pub next: u32,
    pub cache: PicCache,
}

/// What the read of an ordinary object gives, if its keys array decides.
pub open spec fn object_value(
    cells: Cells,
    accessors_in_use: bool,
    obj: usize,
    key: usize,
) -> Option<u64> {
    if resolvable(cells, accessors_in_use, obj) {
        let o = object_at(cells, obj)->0;
        match inline_slot(cells, o.header, key) {
            Some(i) => Some(o.fields[i]),
            None => None,
        }
    } else {
        None
    }
}

/// The state after the read of an ordinary object: the object is stamped and
/// the site primed.
pub open spec fn object_read(
    before: ReadState,
    accessors_in_use: bool,
    obj: usize,
    key: usize,
) -> ReadState {
    if resolvable(before.cells, accessors_in_use, obj) {
        let o = object_at(before.cells, obj)->0;
        let header = read_header(before.shapes, before.next, o.header);
        ReadState {
            cells: with_header(before.cells, obj, header),
            shapes: read_shapes(before.shapes, before.next, o.header),
            next: read_next(before.shapes, before.next, o.header),
            cache: match inline_slot(before.cells, o.header, key) {
                Some(i) => primed(before.cells, header, i, before.cache),
                None => before.cache,
            },
        }
    } else {
        before
    }
}

/// Resolves a read by the keys array of the object, stamps the object and
/// primes the site. `None` leaves the read to the general path.
pub fn read_object(
    heap: &mut Heap,
    shapes: &mut ShapeTable,
    ids: &mut ShapeIds,
    accessors_in_use: bool,
    obj: usize,
    key: usize,
    cache: &mut PicCache,
) -> (r: Option<JSValue>)
    requires
        old(heap).wf(),
        old(ids).wf(),
    ensures
        final(heap).wf(),
        final(heap).frontier() == old(heap).frontier(),
        final(ids).wf(),
        r == (match object_value(old(heap)@, accessors_in_use, obj, key) {
            Some(bits) => Some(JSValue { bits }),
            None => None,
        }),
        (ReadState {
            cells: final(heap)@,
            shapes: final(shapes)@,
            next: final(ids).next,
            cache: *final(cache),
        }) == object_read(
            (ReadState {
                cells: old(heap)@,
                shapes: old(shapes)@,
                next: old(ids).next,
                cache: *old(cache),
            }),
            accessors_in_use,
            obj,
            key,
        ),
{
    if accessors_in_use {
        return None;
    }
    let mut header = match heap.object(obj) {
        None => {
            return None;
        },
        Some(o) => o.header,
    };
    if header.object_type != OBJECT_TYPE_REGULAR {
        return None;
    }
    let keys = header.keys_array;
    if keys <= KEYS_ADDRESS_FLOOR {
        return None;
    }
    let key_count: u32 = match heap.array(keys) {
        None => {
            return None;
        },
        Some(a) => a.length,
    };
    let limit: usize = if header.field_count >= INLINE_SLOT_FLOOR {
        header.field_count as usize
    } else {
        INLINE_SLOT_FLOOR as usize
    };
    let ghost before = heap@;
    let ghost o = object_at(before, obj)->0;
    assert(before.contains_key(obj));
    if header.class_id == 0 && !is_shape_id(header.parent_class_id) {
        let id = shape_id_for_keys_ensure(shapes, ids, keys, key_count);
        if id != 0 {
            header.parent_class_id = id;
            heap.set_object_header(obj, header);
        }
    }
    proof {
        assert(header == read_header(old(shapes)@, old(ids).next, o.header));
        assert(heap@ =~= with_header(before, obj, header));
        lemma_same_strings_same_position(
            before,
            heap@,
            listed_keys(before, o.header),
            key,
            0,
        );
    }
    let i: usize = match find_key(heap, keys, key) {
        None => {
            return None;
        },
        Some(i) => i,
    };
    if i >= limit {
        return None;
    }
    if header.class_id == 0 && is_shape_id(header.parent_class_id) {
        *cache = PicCache {
            token: (header.parent_class_id as u64 | PIC_ID_TOKEN_BIT) as i64,
            slot: i as i64,
        };
    } else if keys_cacheable_for_pic(heap, keys) {
        *cache = PicCache { token: keys as i64, slot: i as i64 };
    }
    match heap.object(obj) {
        None => None,
        Some(cell) => Some(JSValue::from_bits(cell.fields[i])),
    }
}

// ---------------------------------------------------------------------------
// The miss handler and the routing before it
// ---------------------------------------------------------------------------
/// How a missed read goes on.
pub open spec fn missed_read(
    cells: Cells,
    accessors_in_use: bool,
    answers: IcAnswers,
    obj: usize,
    key: usize,
    null_object: usize,
) -> IcOutcome {
    match exotic_read(answers, obj, key, string_at(cells, key)->0, null_object) {
        Some(outcome) => outcome,
        None => match object_value(cells, accessors_in_use, obj, key) {
            Some(bits) => gives(bits),
            None => IcOutcome::ByName,
        },
    }
}

/// The state after a missed read. Nothing changes before the receiver is known
/// to be an ordinary object.
pub open spec fn missed_state(
    before: ReadState,
    accessors_in_use: bool,
    answers: IcAnswers,
    obj: usize,
    key: usize,
    null_object: usize,
) -> ReadState {
    match exotic_read(answers, obj, key, string_at(before.cells, key)->0, null_object) {
        Some(_) => before,
        None => object_read(before, accessors_in_use, obj, key),
    }
}

/// Resolves the read of the key at `key` on `obj`, a handle or an address.
/// `null_object` is the empty object that stands in for what a handle lacks.
pub fn js_object_get_field_ic_miss(
    heap: &mut Heap,
    shapes: &mut ShapeTable,
    ids: &mut ShapeIds,
    accessors_in_use: bool,
    answers: &IcAnswers,
    obj: usize,
    key: usize,
    null_object: usize,
    cache: &mut PicCache,
) -> (r: IcOutcome)
    requires
        old(heap).wf(),
        old(ids).wf(),
        key != 0 ==> string_at(old(heap)@, key) is Some,
    ensures
        final(heap).wf(),
        final(heap).frontier() == old(heap).frontier(),
        final(ids).wf(),
        r == missed_read(old(heap)@, accessors_in_use, *answers, obj, key, null_object),
        (ReadState {
            cells: final(heap)@,
            shapes: final(shapes)@,
            next: final(ids).next,
            cache: *final(cache),
        }) == missed_state(
            (ReadState {
                cells: old(heap)@,
                shapes: old(shapes)@,
                next: old(ids).next,
                cache: *old(cache),
            }),
            accessors_in_use,
            *answers,
            obj,
            key,
            null_object,
        ),
{
    if let Some(outcome) = read_exotic(heap, answers, obj, key, null_object) {
        return outcome;
    }
    match read_object(heap, shapes, ids, accessors_in_use, obj, key, cache) {
        Some(v) => IcOutcome::Value(v),
        None => IcOutcome::ByName,
    }
}

/// Who reads a property of a boxed receiver.
#[derive(Clone, PartialEq, Eq, Debug)]
pub enum IcRoute {
    /// The by-name read of the whole word: short strings have a length, other
    /// primitives may have typed properties.
    ByName { receiver: u64 },
    /// The by-name read of a class reference, which records feedback for the
    /// site.
    ClassRef { site_id: u64, receiver: u64 },
    /// Feedback is recorded for the site, then the miss handler reads.
    Miss { site_id: u64, obj: usize },
    /// A `TypeError` that names the property: undefined and null have none.
    Nullish { is_null: bool, name: Vec<u8> },
}

pub enum IcRouteView {
    ByName { receiver: u64 },
    ClassRef { site_id: u64, receiver: u64 },
    Miss { site_id: u64, obj: usize },
    Nullish { is_null: bool, name: Seq<u8> },
}

impl View for IcRoute {
    type V = IcRouteView;

    open spec fn view(&self) -> IcRouteView {
        match *self {
            IcRoute::ByName { receiver } => IcRouteView::ByName { receiver },
            IcRoute::ClassRef { site_id, receiver } => IcRouteView::ClassRef { site_id, receiver },
            IcRoute::Miss { site_id, obj } => IcRouteView::Miss { site_id, obj },
            IcRoute::Nullish { is_null, name } => IcRouteView::Nullish { is_null, name: name@ },
        }
    }
}

/// The name that the string at `key` spells; empty without a string.
pub open spec fn property_name(cells: Cells, key: usize) -> Seq<u8> {
    match string_at(cells, key) {
        Some(name) => name,
        None => Seq::empty(),
    }
}

/// The route of a read. References and heap strings go to the miss handler.
pub open spec fn route(cells: Cells, bits: u64, key: usize, site_id: u64) -> IcRouteView {
    if tagged(bits, SHORT_STRING_TAG) {
        IcRouteView::ByName { receiver: bits }
    } else if tagged(bits, INT32_TAG) {
        IcRouteView::ClassRef { site_id, receiver: bits }
    } else if tagged(bits, POINTER_TAG) || tagged(bits, STRING_TAG) {
        IcRouteView::Miss { site_id, obj: payload(bits) }
    } else if bits == TAG_UNDEFINED || bits == TAG_NULL {
        IcRouteView::Nullish { is_null: bits == TAG_NULL, name: property_name(cells, key) }
    } else {
        IcRouteView::ByName { receiver: bits }
    }
}

/// Routes a read of the key at `key` by the tag of its receiver.
pub fn js_object_get_field_ic(heap: &Heap, obj_bits: u64, key: usize, site_id: u64) -> (r: IcRoute)
    ensures
        r@ == route(heap@, obj_bits, key, site_id),
{
    let tag: u64 = obj_bits & TAG_MASK;
    if tag == SHORT_STRING_TAG {
        return IcRoute::ByName { receiver: obj_bits };
    }
    if tag == INT32_TAG {
        return IcRoute::ClassRef { site_id, receiver: obj_bits };
    }
    if tag == POINTER_TAG || tag == STRING_TAG {
        return IcRoute::Miss { site_id, obj: (obj_bits & POINTER_MASK) as usize };
    }
    if obj_bits == TAG_UNDEFINED || obj_bits == TAG_NULL {
        let mut name: Vec<u8> = Vec::new();
        if let Some(s) = heap.string(key) {
            name.extend_from_slice(s.bytes.as_slice());
        }
        proof {
            assert(name@ =~= property_name(heap@, key));
        }
        return IcRoute::Nullish { is_null: obj_bits == TAG_NULL, name };
    }
    IcRoute::ByName { receiver: obj_bits }
}

// ---------------------------------------------------------------------------
// Laws
// ---------------------------------------------------------------------------
/// The resolution asks only what it does not know. Questions that look into
/// memory are asked of addresses above the handles alone, and questions about
/// handles of handles alone.
pub proof fn questions_fit_the_receiver(
    answers: IcAnswers,
    obj: usize,
    key: usize,
    name: Seq<u8>,
    null_object: usize,
    question: IcQuestion,
)
    requires
        exotic_read(answers, obj, key, name, null_object) == Some(IcOutcome::Ask(question)),
    ensures
        !answers.answers(question),
        key != 0,
        match question {
            IcQuestion::ClosureProperty | IcQuestion::IsBuffer | IcQuestion::IsTypedArray => {
                above_handle_band(obj)
            },
            _ => small_handle(obj),
        },
{
}

/// With all answers at hand nothing is asked.
pub proof fn complete_answers_decide(
    cells: Cells,
    accessors_in_use: bool,
    answers: IcAnswers,
    obj: usize,
    key: usize,
    null_object: usize,
)
    requires
        answers.complete(),
    ensures
        !(missed_read(cells, accessors_in_use, answers, obj, key, null_object) is Ask),
{
}

/// A decision stands: more answers do not change it.
pub proof fn decisions_stand(
    cells: Cells,
    accessors_in_use: bool,
    answers: IcAnswers,
    later: IcAnswers,
    obj: usize,
    key: usize,
    null_object: usize,
)
    requires
        answers.extended_by(later),
        !(missed_read(cells, accessors_in_use, answers, obj, key, null_object) is Ask),
    ensures
        missed_read(cells, accessors_in_use, later, obj, key, null_object) == missed_read(
            cells,
            accessors_in_use,
            answers,
            obj,
            key,
            null_object,
        ),
{
}

/// A proxy is read through its trap, whatever else would answer for it.
pub proof fn proxies_are_read_through_their_trap(
    cells: Cells,
    accessors_in_use: bool,
    answers: IcAnswers,
    obj: usize,
    key: usize,
    null_object: usize,
)
    requires
        proxy_id_band(obj),
        key != 0,
        answers.is_proxy == Some(true),
    ensures
        missed_read(cells, accessors_in_use, answers, obj, key, null_object) == proxy_get(obj, key),
{
    let w = obj as u64;
    assert(w & 0xFFFF_0000_0000_0000 != 0x7FF9_0000_0000_0000) by (bit_vector)
        requires
            w < 0x100000u64,
    ;
}

/// The stamp that a read leaves is true.
pub proof fn read_stamps_are_true(shapes: Shapes, next: u32, header: ObjectHeader)
    requires
        ids_sound(shapes, next),
        stamp_true(shapes, header),
        header.keys_array != 0,
    ensures
        stamp_true(read_shapes(shapes, next, header), read_header(shapes, next, header)),
{
}

/// A site is primed with a shape id, which is never reused, or with a shared
/// keys array, whose address is never recycled.
pub proof fn primed_tokens_are_lasting(
    cells: Cells,
    header: ObjectHeader,
    slot: int,
    cache: PicCache,
)
    requires
        primed(cells, header, slot, cache) != cache,
    ensures
        ({
            let token = primed(cells, header, slot, cache).token;
            ||| shape_id(header.parent_class_id) && token == (header.parent_class_id as u64
                | PIC_ID_TOKEN_BIT) as i64
            ||| cacheable(cells, header.keys_array) && token == header.keys_array as i64
        }),
{
}

proof fn lemma_tokens_tell_apart(a: u32, b: u32, addr: usize)
    requires
        addr < ADDRESS_END,
    ensures
        (a as u64 | PIC_ID_TOKEN_BIT) as i64 == (b as u64 | PIC_ID_TOKEN_BIT) as i64 ==> a == b,
        (a as u64 | PIC_ID_TOKEN_BIT) as i64 != addr as i64,
{
    let x = a as u64;
    let y = b as u64;
    let w = addr as u64;
    assert(((x | 0x4000_0000_0000_0000) as i64 == (y | 0x4000_0000_0000_0000) as i64 ==> x == y)
        && (x | 0x4000_0000_0000_0000) as i64 != w as i64) by (bit_vector)
        requires
            x <= 0xFFFF_FFFFu64,
            y <= 0xFFFF_FFFFu64,
            w < 0x0001_0000_0000_0000u64,
    ;
}

/// Objects with the same token have the same keys array, as long as stamps are
/// true and ids distinct.
pub proof fn equal_tokens_mean_equal_keys(shapes: Shapes, a: ObjectHeader, b: ObjectHeader)
    requires
        ids_distinct(shapes),
        stamp_true(shapes, a),
        stamp_true(shapes, b),
        a.keys_array < ADDRESS_END,
        b.keys_array < ADDRESS_END,
        token_of(a) == token_of(b),
    ensures
        a.keys_array == b.keys_array,
{
    lemma_tokens_tell_apart(a.parent_class_id, b.parent_class_id, b.keys_array);
    lemma_tokens_tell_apart(b.parent_class_id, a.parent_class_id, a.keys_array);
}

/// A site that one object primed serves every object with the same token: the
/// slot it loads is the one that the key has there too, if the object has that
/// slot inline.
pub proof fn primed_site_serves_the_shape(
    cells: Cells,
    shapes: Shapes,
    first: ObjectHeader,
    other: ObjectHeader,
    key: usize,
)
    requires
        ids_distinct(shapes),
        stamp_true(shapes, first),
        stamp_true(shapes, other),
        first.keys_array < ADDRESS_END,
        other.keys_array < ADDRESS_END,
        token_of(first) == token_of(other),
        inline_slot(cells, first, key) is Some,
        inline_slot(cells, first, key)->0 < alloc_limit(other),
    ensures
        inline_slot(cells, other, key) == inline_slot(cells, first, key),
{
    equal_tokens_mean_equal_keys(shapes, first, other);
}

/// Reading again gives the same and changes nothing more.
pub proof fn reading_again_changes_nothing(
    before: ReadState,
    accessors_in_use: bool,
    obj: usize,
    key: usize,
)
    requires
        ids_sound(before.shapes, before.next),
    ensures
        ({
            let after = object_read(before, accessors_in_use, obj, key);
            &&& object_value(after.cells, accessors_in_use, obj, key) == object_value(
                before.cells,
                accessors_in_use,
                obj,
                key,
            )
            &&& object_read(after, accessors_in_use, obj, key) == after
        }),
{
    let after = object_read(before, accessors_in_use, obj, key);
    if resolvable(before.cells, accessors_in_use, obj) {
        let o = object_at(before.cells, obj)->0;
        let header = read_header(before.shapes, before.next, o.header);
        assert(listed_keys(after.cells, header) == listed_keys(before.cells, o.header));
        lemma_same_strings_same_position(
            before.cells,
            after.cells,
            listed_keys(before.cells, o.header),
            key,
            0,
        );
        let again = object_read(after, accessors_in_use, obj, key);
        assert(again.cells =~= after.cells);
    }
}

proof fn lemma_key_position(cells: Cells, elements: Seq<u64>, key: usize, i: int)
    requires
        0 <= i,
    ensures
        match key_position(cells, elements, key, i) {
            Some(p) => i <= p < elements.len() && strings_equal(cells, payload(elements[p]), key),
            None => forall|j: int|
                i <= j < elements.len() ==> !strings_equal(
                    cells,
                    payload(#[trigger] elements[j]),
                    key,
                ),
        },
    decreases elements.len() - i,
{
    if i < elements.len() {
        lemma_key_position(cells, elements, key, i + 1);
    }
}

/// The miss path agrees with the general read: what it gives for an ordinary
/// object is the value of the property, and it gives every property that has an
/// inline slot.
pub proof fn missed_reads_give_the_property(
    w: World,
    accessors_in_use: bool,
    obj: usize,
    key: usize,
)
    requires
        w.ok(),
        string_at(w.cells, key) is Some,
        resolvable(w.cells, accessors_in_use, obj),
    ensures
        ({
            let name = string_at(w.cells, key)->0;
            let names = own_keys(w.cells, obj);
            let header = object_at(w.cells, obj)->0.header;
            let value = object_value(w.cells, accessors_in_use, obj, key);
            &&& value is Some ==> w.property(obj, name) == value
            &&& value is Some <==> names.contains(name) && names.index_of(name) < alloc_limit(
                header,
            )
        }),
{
    let name = string_at(w.cells, key)->0;
    let names = own_keys(w.cells, obj);
    let header = object_at(w.cells, obj)->0.header;
    let list = elements(w.cells, header.keys_array);
    assert(keys_ok(w.cells, header.keys_array));
    assert(listed_keys(w.cells, header) == list);
    lemma_spelled(w, obj);
    lemma_key_position(w.cells, list, key, 0);
    match key_position(w.cells, list, key, 0) {
        Some(i) => {
            assert(string_at(w.cells, payload(list[i])) == Some(names[i]));
            assert(names[i] == name);
            assert(names.index_of(name) == i);
        },
        None => {
            if names.contains(name) {
                let i = choose|i: int| 0 <= i < names.len() && names[i] == name;
                assert(string_at(w.cells, payload(list[i])) == Some(names[i]));
                assert(strings_equal(w.cells, payload(list[i]), key));
            }
        },
    }
}

/// A missed read keeps all that holds of the heap and the side tables, and its
/// ids come from the counter.
pub proof fn missed_reads_keep_the_world_ok(
    w: World,
    next: u32,
    cache: PicCache,
    accessors_in_use: bool,
    obj: usize,
    key: usize,
)
    requires
        w.ok(),
        ids_drawn(w.shapes, next),
    ensures
        ({
            let before = ReadState { cells: w.cells, shapes: w.shapes, next, cache };
            let after = object_read(before, accessors_in_use, obj, key);
            &&& (World { cells: after.cells, shapes: after.shapes, ..w }).ok()
            &&& ids_drawn(after.shapes, after.next)
            &&& next <= after.next
            &&& only_new_ids(w.shapes, after.shapes, next)
        }),
{
    if resolvable(w.cells, accessors_in_use, obj) {
        let was = object_at(w.cells, obj)->0.header;
        let shapes = read_shapes(w.shapes, next, was);
        assert(keys_ok(w.cells, was.keys_array));
        ids_stay_sound(w.shapes, next, w.cells, was.keys_array, 0, 0, 0, 0, true);
        new_ids_are_drawn(w.shapes, next, w.cells, was.keys_array, 0, 0, 0, 0, true);
        lemma_recorded(w, shapes);
        lemma_headed(World { shapes, ..w }, obj, read_header(w.shapes, next, was));
    }
}

/// A read is routed by the tag of its receiver. Exactly undefined and null throw,
/// with the name of the property. References and heap strings go to the miss
/// handler with their address, class references to the reads that record
/// feedback, and everything else to the by-name read of the whole word.
pub proof fn routes_go_by_the_receiver(cells: Cells, bits: u64, key: usize, site_id: u64)
    ensures
        ({
            let r = route(cells, bits, key, site_id);
            let tag = bits & 0xFFFF_0000_0000_0000u64;
            &&& r is Nullish <==> bits == 0x7FFC_0000_0000_0001 || bits == 0x7FFC_0000_0000_0002
            &&& r matches IcRouteView::Nullish { is_null, name } ==> {
                &&& is_null <==> bits == 0x7FFC_0000_0000_0002
                &&& match string_at(cells, key) {
                    Some(text) => name == text,
                    None => name.len() == 0,
                }
            }
            &&& r is Miss <==> tag == 0x7FFD_0000_0000_0000 || tag == 0x7FFF_0000_0000_0000
            &&& r matches IcRouteView::Miss { site_id: site, obj } ==> site == site_id && obj
                == (bits & 0x0000_FFFF_FFFF_FFFFu64) as usize
            &&& r is ClassRef <==> tag == 0x7FFE_0000_0000_0000
            &&& r matches IcRouteView::ClassRef { site_id: site, receiver } ==> site == site_id
                && receiver == bits
            &&& r matches IcRouteView::ByName { receiver } ==> receiver == bits
        }),
{
    assert(0x7FFC_0000_0000_0001u64 & 0xFFFF_0000_0000_0000u64 == 0x7FFC_0000_0000_0000u64
        && 0x7FFC_0000_0000_0002u64 & 0xFFFF_0000_0000_0000u64 == 0x7FFC_0000_0000_0000u64)
        by (bit_vector);
}

/// Every address that was boxed as a reference or as a heap string is routed to
/// the miss handler as it was.
pub proof fn boxed_addresses_reach_the_miss_handler(
    cells: Cells,
    addr: usize,
    key: usize,
    site_id: u64,
)
    requires
        addr < ADDRESS_END,
    ensures
        route(cells, boxed(POINTER_TAG, addr), key, site_id) == (IcRouteView::Miss {
            site_id,
            obj: addr,
        }),
        route(cells, boxed(STRING_TAG, addr), key, site_id) == (IcRouteView::Miss {
            site_id,
            obj: addr,
        }),
{
    let w = addr as u64;
    assert((0x7FFD_0000_0000_0000u64 | (w & 0x0000_FFFF_FFFF_FFFFu64)) & 0xFFFF_0000_0000_0000u64
        == 0x7FFD_0000_0000_0000u64 && (0x7FFD_0000_0000_0000u64 | (w & 0x0000_FFFF_FFFF_FFFFu64))
        & 0x0000_FFFF_FFFF_FFFFu64 == w && (0x7FFF_0000_0000_0000u64 | (w
        & 0x0000_FFFF_FFFF_FFFFu64)) & 0xFFFF_0000_0000_0000u64 == 0x7FFF_0000_0000_0000u64 && (
    0x7FFF_0000_0000_0000u64 | (w & 0x0000_FFFF_FFFF_FFFFu64)) & 0x0000_FFFF_FFFF_FFFFu64 == w)
        by (bit_vector)
        requires
            w < 0x0001_0000_0000_0000u64,
    ;
}

/// Do the element of a keys array and the key at an address spell the same?
pub open spec fn element_spells(cells: Cells, element: u64, key: usize) -> bool {
    string_at(cells, key) is Some && string_at(
        cells,
        (element & 0x0000_FFFF_FFFF_FFFFu64) as usize,
    ) == string_at(cells, key)
}

/// A missed read on an address above the handles, which is no closure with that
/// key, no buffer and no typed array, gives the inline field of an ordinary
/// object whose keys array has the key, the first one that spells it. Every
/// other such read is left to the general one: the receiver is an array, a
/// string or nothing at all, an accessor may be in the way, or the object has
/// the key on the side or not at all.
pub proof fn heap_reads_give_inline_fields_or_go_by_name(
    cells: Cells,
    accessors_in_use: bool,
    answers: IcAnswers,
    obj: usize,
    key: usize,
    null_object: usize,
)
    requires
        key != 0,
        0x10_0000 <= obj,
        obj as u64 & 0xFFFF_0000_0000_0000u64 != 0x7FF9_0000_0000_0000,
        answers.closure_property == Some(None::<u64>),
        answers.is_buffer == Some(false),
        answers.is_typed_array == Some(false),
        forall|a: usize|
            (#[trigger] array_at(cells, a)) is Some ==> array_at(cells, a)->0.slots.len()
                == array_at(cells, a)->0.capacity,
    ensures
        ({
            let r = missed_read(cells, accessors_in_use, answers, obj, key, null_object);
            let o = object_at(cells, obj)->0;
            let keys = array_at(cells, o.header.keys_array)->0;
            let count = if keys.length <= keys.capacity {
                keys.length
            } else {
                keys.capacity
            };
            if !accessors_in_use && object_at(cells, obj) is Some && o.header.object_type == 1
                && o.header.keys_array > 0x10000 && array_at(
                cells,
                o.header.keys_array,
            ) is Some {
                &&& (forall|i: int|
                    0 <= i < count ==> !#[trigger] element_spells(cells, keys.slots[i], key))
                    ==> r == IcOutcome::ByName
                &&& forall|i: int|
                    0 <= i < count && #[trigger] element_spells(cells, keys.slots[i], key) && (
                    forall|j: int|
                        0 <= j < i ==> !#[trigger] element_spells(cells, keys.slots[j], key)) ==> r
                        == (if i < 4 || i < o.header.field_count {
                        IcOutcome::Value(JSValue { bits: o.fields[i] })
                    } else {
                        IcOutcome::ByName
                    })
            } else {
                r == IcOutcome::ByName
            }
        }),
{
    if resolvable(cells, accessors_in_use, obj) {
        let header = object_at(cells, obj)->0.header;
        let keys = array_at(cells, header.keys_array)->0;
        let list = listed_keys(cells, header);
        lemma_key_position(cells, list, key, 0);
        lemma_first_position(cells, list, key, 0);
        assert forall|i: int| 0 <= i < list.len() implies strings_equal(
            cells,
            payload(#[trigger] list[i]),
            key,
        ) == element_spells(cells, keys.slots[i], key) by {
            assert(list[i] == keys.slots[i]);
        }
        if let Some(p) = key_position(cells, list, key, 0) {
            assert(element_spells(cells, keys.slots[p], key));
            assert forall|j: int| 0 <= j < p implies !#[trigger] element_spells(
                cells,
                keys.slots[j],
                key,
            ) by {
                assert(!strings_equal(cells, payload(list[j]), key));
            }
        } else {
            assert forall|i: int| 0 <= i < list.len() implies !#[trigger] element_spells(
                cells,
                keys.slots[i],
                key,
            ) by {
                assert(!strings_equal(cells, payload(list[i]), key));
            }
        }
    }
}

proof fn lemma_first_position(cells: Cells, elements: Seq<u64>, key: usize, i: int)
    requires
        0 <= i,
    ensures
        key_position(cells, elements, key, i) matches Some(p) ==> forall|j: int|
            i <= j < p ==> !strings_equal(cells, payload(#[trigger] elements[j]), key),
    decreases elements.len() - i,
{
    if i < elements.len() {
        lemma_first_position(cells, elements, key, i + 1);
    }
}

/// What the answers say of a receiver that is no plain object decides. No
/// receiver or no key reads as undefined. A short string goes by name. A closure
/// gives what it has under the key; buffers and typed arrays go by name.
pub proof fn answers_decide_for_exotic_receivers(
    cells: Cells,
    accessors_in_use: bool,
    answers: IcAnswers,
    obj: usize,
    key: usize,
    null_object: usize,
)
    ensures
        ({
            let r = missed_read(cells, accessors_in_use, answers, obj, key, null_object);
            let short = obj as u64 & 0xFFFF_0000_0000_0000u64 == 0x7FF9_0000_0000_0000;
            &&& obj == 0 || key == 0 ==> r == IcOutcome::Value(
                JSValue { bits: 0x7FFC_0000_0000_0001 },
            )
            &&& key != 0 && short ==> r == IcOutcome::ByName
            &&& key != 0 && !short && 0x10_0000 <= obj ==> {
                &&& answers.closure_property is None ==> r == IcOutcome::Ask(
                    IcQuestion::ClosureProperty,
                )
                &&& forall|bits: u64|
                    answers.closure_property == Some(Some(bits)) ==> r == #[trigger] gives(bits)
                        && r == IcOutcome::Value(JSValue { bits })
                &&& answers.closure_property == Some(None::<u64>) && answers.is_buffer is None
                    ==> r == IcOutcome::Ask(IcQuestion::IsBuffer)
                &&& answers.closure_property == Some(None::<u64>) && answers.is_buffer == Some(
                    true,
                ) ==> r == IcOutcome::ByName
                &&& answers.closure_property == Some(None::<u64>) && answers.is_buffer == Some(
                    false,
                ) && answers.is_typed_array is None ==> r == IcOutcome::Ask(
                    IcQuestion::IsTypedArray,
                )
                &&& answers.closure_property == Some(None::<u64>) && answers.is_buffer == Some(
                    false,
                ) && answers.is_typed_array == Some(true) ==> r == IcOutcome::ByName
            }
        }),
{
    assert(0u64 & 0xFFFF_0000_0000_0000u64 == 0) by (bit_vector);
}

/// A native handle that is no proxy is read in turn as a timer, a text handle
/// and by the dispatcher: whoever knows the key gives the value. If nobody does,
/// `constructor` is the empty object, and any other key is what the prototype of
/// the handle has, else undefined. The heap has no say.
pub proof fn handles_are_read_in_turn(
    cells: Cells,
    accessors_in_use: bool,
    answers: IcAnswers,
    obj: usize,
    key: usize,
    null_object: usize,
)
    requires
        0 < obj < 0x10_0000,
        key != 0,
        answers.complete(),
        answers.is_proxy == Some(false),
    ensures
        ({
            let r = missed_read(cells, accessors_in_use, answers, obj, key, null_object);
            let name = string_at(cells, key)->0;
            let timer = timer_handle_method_key(name) && answers.is_timer == Some(true);
            let known = answers.handle_property->0 is Some && answers.handle_property->0->0
                != 0x7FFC_0000_0000_0001;
            let constructor = seq![99u8, 111, 110, 115, 116, 114, 117, 99, 116, 111, 114];
            &&& timer ==> r == (IcOutcome::BindMethod {
                this: JSValue { bits: boxed(POINTER_TAG, obj) },
            })
            &&& !timer && answers.text_property->0 is Some ==> r == IcOutcome::Value(
                JSValue { bits: answers.text_property->0->0 },
            )
            &&& !timer && answers.text_property->0 is None ==> {
                &&& known ==> r == IcOutcome::Value(
                    JSValue { bits: answers.handle_property->0->0 },
                )
                &&& !known && name == constructor ==> r == IcOutcome::Value(
                    JSValue { bits: boxed(POINTER_TAG, null_object) },
                )
                &&& !known && name != constructor && answers.handle_property->0 is None ==> r
                    == IcOutcome::Value(JSValue { bits: 0x7FFC_0000_0000_0001 })
                &&& !known && name != constructor && answers.handle_property->0 is Some ==> r
                    == IcOutcome::Value(
                    JSValue {
                        bits: match answers.inherited_property->0 {
                            Some(v) => v,
                            None => 0x7FFC_0000_0000_0001,
                        },
                    },
                )
            }
        }),
{
    let w = obj as u64;
    assert(w & 0xFFFF_0000_0000_0000 != 0x7FF9_0000_0000_0000) by (bit_vector)
        requires
            w < 0x100000u64,
    ;
    reveal_strlit("constructor");
    assert(ascii("constructor") =~= seq![
        99u8,
        111,
        110,
        115,
        116,
        114,
        117,
        99,
        116,
        111,
        114,
    ]);
}

/// A proxy is read through its trap, with its id and the key boxed.
pub proof fn traps_get_the_proxy_and_the_key(
    cells: Cells,
    accessors_in_use: bool,
    answers: IcAnswers,
    obj: usize,
    key: usize,
    null_object: usize,
)
    requires
        key != 0,
    ensures
        ({
            let r = missed_read(cells, accessors_in_use, answers, obj, key, null_object);
            &&& 0 < obj < 0x10_0000 && answers.is_proxy == Some(true) ==> r
                == (IcOutcome::ProxyGet {
                proxy: JSValue { bits: boxed(POINTER_TAG, obj) },
                key: JSValue { bits: boxed(STRING_TAG, key) },
            })
            &&& 0 < obj < 0x10_0000 && answers.is_proxy is None ==> r == IcOutcome::Ask(
                IcQuestion::IsProxy,
            )
            &&& r is ProxyGet ==> 0 < obj < 0x10_0000 && answers.is_proxy == Some(true)
        }),
{
    let w = obj as u64;
    if obj < 0x10_0000 {
        assert(w & 0xFFFF_0000_0000_0000 != 0x7FF9_0000_0000_0000) by (bit_vector)
            requires
                w < 0x100000u64,
        ;
    }
}

/// A missed read changes at most the stamp of a plain object that has none, and
/// primes the site only if it gives a value, for that value: the slot holds it,
/// and the key is spelled there. With accessors in use it changes nothing.
pub proof fn misses_change_stamp_and_site_alone(
    before: ReadState,
    accessors_in_use: bool,
    answers: IcAnswers,
    obj: usize,
    key: usize,
    null_object: usize,
)
    requires
        forall|a: usize|
            (#[trigger] array_at(before.cells, a)) is Some ==> array_at(
                before.cells,
                a,
            )->0.slots.len() == array_at(before.cells, a)->0.capacity,
    ensures
        ({
            let r = missed_read(before.cells, accessors_in_use, answers, obj, key, null_object);
            let after = missed_state(before, accessors_in_use, answers, obj, key, null_object);
            let was = object_at(before.cells, obj)->0;
            let is = object_at(after.cells, obj)->0;
            let primed = after.cache != before.cache;
            &&& accessors_in_use || object_at(before.cells, obj) is None || !(r is Value
                || r is ByName) ==> after == before
            &&& forall|a: usize|
                a != obj ==> (#[trigger] after.cells.contains_key(a) <==> before.cells.contains_key(
                    a,
                )) && after.cells[a] == before.cells[a]
            &&& object_at(before.cells, obj) is Some ==> {
                &&& object_at(after.cells, obj) is Some
                &&& after.cells[obj].gc == before.cells[obj].gc
                &&& is.fields == was.fields
                &&& is.header == (ObjectHeader {
                    parent_class_id: is.header.parent_class_id,
                    ..was.header
                })
                &&& was.header.class_id != 0 || 0x8000_0000 <= was.header.parent_class_id
                    < 0xC000_0000 ==> is.header == was.header
            }
            &&& primed ==> {
                &&& r is Value
                &&& 0 <= after.cache.slot
                &&& after.cache.slot < 4 || after.cache.slot < was.header.field_count
                &&& was.fields[after.cache.slot as int] == r->Value_0.bits
                &&& element_spells(
                    before.cells,
                    array_at(before.cells, was.header.keys_array)->0.slots[after.cache.slot as int],
                    key,
                )
            }
        }),
{
    let after = missed_state(before, accessors_in_use, answers, obj, key, null_object);
    if resolvable(before.cells, accessors_in_use, obj) {
        let header = object_at(before.cells, obj)->0.header;
        let keys = array_at(before.cells, header.keys_array)->0;
        let list = listed_keys(before.cells, header);
        lemma_key_position(before.cells, list, key, 0);
        if let Some(p) = key_position(before.cells, list, key, 0) {
            assert(list[p] == keys.slots[p]);
        }
    }
}

/// A read that finds an inline field of a plain object leaves the object stamped
/// and the site primed with the stamp, as long as there are ids. For an instance
/// of a class the site is primed with the keys array if that is shared, and else
/// left alone.
pub proof fn found_fields_prime_the_site(
    before: ReadState,
    accessors_in_use: bool,
    obj: usize,
    key: usize,
)
    requires
        ids_sound(before.shapes, before.next),
        before.next < 0xC000_0000,
        object_value(before.cells, accessors_in_use, obj, key) is Some,
        forall|a: usize|
            (#[trigger] array_at(before.cells, a)) is Some ==> array_at(
                before.cells,
                a,
            )->0.slots.len() == array_at(before.cells, a)->0.capacity,
    ensures
        ({
            let after = object_read(before, accessors_in_use, obj, key);
            let was = object_at(before.cells, obj)->0;
            let is = object_at(after.cells, obj)->0;
            let stamp = is.header.parent_class_id;
            let shared = before.cells[was.header.keys_array].gc.shape_shared;
            &&& was.header.class_id == 0 ==> {
                &&& 0x8000_0000 <= stamp < 0xC000_0000
                &&& after.cache.token == (stamp as u64 | 0x4000_0000_0000_0000u64) as i64
            }
            &&& was.header.class_id != 0 && shared ==> after.cache.token
                == was.header.keys_array as i64
            &&& was.header.class_id != 0 && !shared ==> after.cache == before.cache
            &&& was.header.class_id == 0 || shared ==> was.fields[after.cache.slot as int]
                == object_value(before.cells, accessors_in_use, obj, key)->0
        }),
{
    let header = object_at(before.cells, obj)->0.header;
    lemma_key_position(before.cells, listed_keys(before.cells, header), key, 0);
}

/// A missed read of an ordinary plain object with keys leaves it stamped with the
/// id of its keys array, whether it has the key or not, as long as there are ids.
pub proof fn reads_stamp_plain_objects(before: ReadState, obj: usize, key: usize)
    requires
        ids_sound(before.shapes, before.next),
        before.next < 0xC000_0000,
        object_at(before.cells, obj) is Some,
        object_at(before.cells, obj)->0.header.object_type == 1,
        object_at(before.cells, obj)->0.header.class_id == 0,
        object_at(before.cells, obj)->0.header.keys_array > 0x10000,
        array_at(before.cells, object_at(before.cells, obj)->0.header.keys_array) is Some,
        stamp_true(before.shapes, object_at(before.cells, obj)->0.header),
    ensures
        ({
            let after = object_read(before, false, obj, key);
            let is = object_at(after.cells, obj)->0.header;
            &&& 0x8000_0000 <= is.parent_class_id < 0xC000_0000
            &&& after.shapes.contains_key(is.keys_array)
            &&& after.shapes[is.keys_array].shape_id == is.parent_class_id
            &&& is.keys_array == object_at(before.cells, obj)->0.header.keys_array
            &&& before.next <= after.next <= before.next + 1
        }),
{
}

/// While accessors are in use no slot is read directly, and nothing is stamped
/// or primed.
pub proof fn accessors_keep_slots_from_being_read(before: ReadState, obj: usize, key: usize)
    ensures
        object_value(before.cells, true, obj, key) is None,
        object_read(before, true, obj, key) == before,
{
}

} // verus!
