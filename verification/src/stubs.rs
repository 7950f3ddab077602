//! What stands in for a module that was not found.

use vstd::prelude::*;

use crate::heap::OBJECT_TYPE_REGULAR;
use crate::value::{
    boxed, payload, tagged, words_split_into_tag_and_payload, JSValue, POINTER_TAG, TAG_UNDEFINED,
};

verus! {

/// An ordinary object without keys or fields. It is a safe answer where
/// undefined might be dereferenced.
#[derive(Clone, Copy, PartialEq, Eq, Structural, Debug)]
pub struct NullObjectBytes {
    pub object_type: u32,
    pub class_id: u32,
    pub parent_class_id: u32,
    pub field_count: u32,
    pub keys_array: u64,
}

impl NullObjectBytes {
    pub fn new() -> (r: NullObjectBytes)
        ensures
            r.object_type == OBJECT_TYPE_REGULAR,
            r.class_id == 0,
            r.parent_class_id == 0,
            r.field_count == 0,
            r.keys_array == 0,
    {
        NullObjectBytes {
            object_type: OBJECT_TYPE_REGULAR,
            class_id: 0,
            parent_class_id: 0,
            field_count: 0,
            keys_array: 0,
        }
    }
}

/// The namespace of a module that was not found: the empty object at
/// `null_object`. So `typeof` says "object", as for any namespace, and every
/// property reads as undefined.
pub fn js_unresolved_namespace_stub(null_object: usize) -> (r: JSValue)
    ensures
        r.bits == boxed(POINTER_TAG, null_object),
{
    JSValue::pointer(null_object)
}

/// The answer to a call of a default export that was not found, and whether
/// the user is to be warned of it.
#[derive(Clone, Copy, PartialEq, Eq, Structural, Debug)]
pub struct UnresolvedCall {
    pub warn: bool,
    pub value: JSValue,
}

/// What a call gives; `warned` tells whether one was reported before.
pub open spec fn unresolved_call(warned: bool) -> UnresolvedCall {
    UnresolvedCall { warn: !warned, value: JSValue { bits: TAG_UNDEFINED } }
}

/// Calls the default export of a module that was not found. It returns
/// undefined; the first call of all is to be reported. `warned` remembers that.
pub fn js_unresolved_default_call(warned: &mut bool) -> (r: UnresolvedCall)
    ensures
        r == unresolved_call(*old(warned)),
        *final(warned),
{
    let warn = !*warned;
    *warned = true;
    UnresolvedCall { warn, value: JSValue::undefined() }
}

/// The namespace of a module that was not found is a reference to the empty
/// object.
pub proof fn namespace_stubs_refer_to_the_empty_object(null_object: usize)
    requires
        null_object < 0x0001_0000_0000_0000,
    ensures
        tagged(boxed(POINTER_TAG, null_object), POINTER_TAG),
        payload(boxed(POINTER_TAG, null_object)) == null_object,
        boxed(POINTER_TAG, null_object) != TAG_UNDEFINED,
{
    words_split_into_tag_and_payload(boxed(POINTER_TAG, null_object), null_object);
}

/// Every call of what was not found gives undefined, and only the first of all is
/// reported.
pub proof fn unresolved_calls_warn_once(warned: bool)
    ensures
        unresolved_call(warned).value.bits == 0x7FFC_0000_0000_0001,
        unresolved_call(warned).warn <==> !warned,
{
}

} // verus!
