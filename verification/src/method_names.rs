//! Built-in method names that a property read answers with a bound method
//! instead of a stored field.

use vstd::prelude::*;

verus! {

/// The bytes of an ASCII name.
pub open spec fn ascii(name: &str) -> Seq<u8> {
    Seq::new(name@.len(), |i: int| name@[i] as u8)
}

/// Byte-for-byte comparison of two slices.
pub fn bytes_equal(a: &[u8], b: &[u8]) -> (r: bool)
    ensures
        r == (a@ == b@),
{
    if a.len() != b.len() {
        return false;
    }
    let mut i: usize = 0;
    while i < a.len()
        invariant
            a@.len() == b@.len(),
            i <= a@.len(),
            forall|j: int| 0 <= j < i ==> a@[j] == b@[j],
        decreases a@.len() - i,
    {
        if a[i] != b[i] {
            return false;
        }
        i += 1;
    }
    assert(a@ =~= b@);
    true
}

/// Is `key` spelled exactly like the ASCII `name`?
pub fn key_is(key: &[u8], name: &str) -> (r: bool)
    requires
        name.is_ascii(),
    ensures
        r == (key@ == ascii(name)),
{
    proof {
        vstd::string::is_ascii_spec_bytes(name);
    }
    bytes_equal(key, name.as_bytes())
}

/// The `Object.prototype` methods that every value inherits, primitive numbers
/// too. `constructor` is not among them: it holds a function and is not a
/// bound method.
pub open spec fn primitive_proto_method(key: Seq<u8>) -> bool {
    ||| key == ascii("toString")
    ||| key == ascii("valueOf")
    ||| key == ascii("hasOwnProperty")
    ||| key == ascii("isPrototypeOf")
    ||| key == ascii("propertyIsEnumerable")
    ||| key == ascii("toLocaleString")
}

pub fn is_primitive_proto_method(key: &[u8]) -> (r: bool)
    ensures
        r == primitive_proto_method(key@),
{
    proof {
        reveal_strlit("toString");
        reveal_strlit("valueOf");
        reveal_strlit("hasOwnProperty");
        reveal_strlit("isPrototypeOf");
        reveal_strlit("propertyIsEnumerable");
        reveal_strlit("toLocaleString");
    }
    key_is(key, "toString") || key_is(key, "valueOf") || key_is(key, "hasOwnProperty") || key_is(
        key,
        "isPrototypeOf",
    ) || key_is(key, "propertyIsEnumerable") || key_is(key, "toLocaleString")
}

/// Array methods that can be read as values.
pub open spec fn array_method_value_name(key: Seq<u8>) -> bool {
    ||| key == ascii("pop")
    ||| key == ascii("push")
    ||| key == ascii("shift")
    ||| key == ascii("unshift")
    ||| key == ascii("splice")
    ||| key == ascii("slice")
}

pub fn is_array_method_value_name(key: &[u8]) -> (r: bool)
    ensures
        r == array_method_value_name(key@),
{
    proof {
        reveal_strlit("pop");
        reveal_strlit("push");
        reveal_strlit("shift");
        reveal_strlit("unshift");
        reveal_strlit("splice");
        reveal_strlit("slice");
    }
    key_is(key, "pop") || key_is(key, "push") || key_is(key, "shift") || key_is(key, "unshift")
        || key_is(key, "splice") || key_is(key, "slice")
}

/// Methods of `Set.prototype` that can be read as values.
pub open spec fn set_method_name(key: Seq<u8>) -> bool {
    ||| key == ascii("add")
    ||| key == ascii("clear")
    ||| key == ascii("delete")
    ||| key == ascii("entries")
    ||| key == ascii("forEach")
    ||| key == ascii("has")
    ||| key == ascii("keys")
    ||| key == ascii("values")
    ||| key == ascii("union")
    ||| key == ascii("intersection")
    ||| key == ascii("difference")
    ||| key == ascii("symmetricDifference")
    ||| key == ascii("isSubsetOf")
    ||| key == ascii("isSupersetOf")
    ||| key == ascii("isDisjointFrom")
    ||| key == ascii("@@iterator")
}

/// `name` with a `'static` lifetime, if that is how `key` is spelled.
fn static_name_if(key: &[u8], name: &'static str) -> (r: Option<&'static [u8]>)
    requires
        name.is_ascii(),
    ensures
        r is Some <==> key@ == ascii(name),
        r matches Some(n) ==> n@ == ascii(name),
{
    proof {
        vstd::string::is_ascii_spec_bytes(name);
    }
    if key_is(key, name) {
        Some(name.as_bytes())
    } else {
        None
    }
}

/// The first of two candidates that matched.
fn first_of(a: Option<&'static [u8]>, b: Option<&'static [u8]>) -> (r: Option<&'static [u8]>)
    ensures
        r == (if a is Some {
            a
        } else {
            b
        }),
{
    match a {
        Some(_) => a,
        None => b,
    }
}

/// The canonical spelling of a set method, for a binding that outlives `key`;
/// `None` for any other key.
pub fn set_method_value_name(key: &[u8]) -> (r: Option<&'static [u8]>)
    ensures
        r is Some <==> set_method_name(key@),
        r matches Some(n) ==> n@ == key@,
{
    proof {
        reveal_strlit("add");
        reveal_strlit("clear");
        reveal_strlit("delete");
        reveal_strlit("entries");
        reveal_strlit("forEach");
        reveal_strlit("has");
        reveal_strlit("keys");
        reveal_strlit("values");
        reveal_strlit("union");
        reveal_strlit("intersection");
        reveal_strlit("difference");
        reveal_strlit("symmetricDifference");
        reveal_strlit("isSubsetOf");
        reveal_strlit("isSupersetOf");
        reveal_strlit("isDisjointFrom");
        reveal_strlit("@@iterator");
    }
    let classic = first_of(
        first_of(
            first_of(static_name_if(key, "add"), static_name_if(key, "clear")),
            first_of(static_name_if(key, "delete"), static_name_if(key, "entries")),
        ),
        first_of(
            first_of(static_name_if(key, "forEach"), static_name_if(key, "has")),
            first_of(static_name_if(key, "keys"), static_name_if(key, "values")),
        ),
    );
    let algebra = first_of(
        first_of(
            first_of(static_name_if(key, "union"), static_name_if(key, "intersection")),
            first_of(
                static_name_if(key, "difference"),
                static_name_if(key, "symmetricDifference"),
            ),
        ),
        first_of(
            first_of(static_name_if(key, "isSubsetOf"), static_name_if(key, "isSupersetOf")),
            first_of(static_name_if(key, "isDisjointFrom"), static_name_if(key, "@@iterator")),
        ),
    );
    first_of(classic, algebra)
}

/// Methods of a timer handle. The last three are the dispose and
/// to-primitive hooks, which lower to plain string keys.
pub open spec fn timer_handle_method_key(key: Seq<u8>) -> bool {
    ||| key == ascii("ref")
    ||| key == ascii("unref")
    ||| key == ascii("hasRef")
    ||| key == ascii("refresh")
    ||| key == ascii("close")
    ||| key == ascii("__perry_dispose__")
    ||| key == ascii("@@__perry_wk_dispose")
    ||| key == ascii("@@__perry_wk_toPrimitive")
}

pub fn is_timer_handle_method_key(key: &[u8]) -> (r: bool)
    ensures
        r == timer_handle_method_key(key@),
{
    proof {
        reveal_strlit("ref");
        reveal_strlit("unref");
        reveal_strlit("hasRef");
        reveal_strlit("refresh");
        reveal_strlit("close");
        reveal_strlit("__perry_dispose__");
        reveal_strlit("@@__perry_wk_dispose");
        reveal_strlit("@@__perry_wk_toPrimitive");
    }
    key_is(key, "ref") || key_is(key, "unref") || key_is(key, "hasRef") || key_is(key, "refresh")
        || key_is(key, "close") || key_is(key, "__perry_dispose__") || key_is(
        key,
        "@@__perry_wk_dispose",
    ) || key_is(key, "@@__perry_wk_toPrimitive")
}

// ---------------------------------------------------------------------------
// Laws
// ---------------------------------------------------------------------------
/// The characters that the bytes of an ASCII key stand for.
pub open spec fn characters_of(key: Seq<u8>) -> Seq<char> {
    key.map_values(|b: u8| b as char)
}

/// A key has the bytes of an ASCII name exactly if it reads like the name.
proof fn lemma_reads_like(key: Seq<u8>, name: &str)
    requires
        forall|i: int| 0 <= i < name@.len() ==> 0 <= (#[trigger] name@[i]) as int <= 0x7F,
    ensures
        key == ascii(name) <==> characters_of(key) == name@,
{
    if key == ascii(name) {
        assert forall|i: int| 0 <= i < name@.len() implies #[trigger] characters_of(key)[i]
            == name@[i] by {
            assert(0 <= name@[i] as int <= 0x7F);
            assert(key[i] == ascii(name)[i]);
        }
        assert(characters_of(key) =~= name@);
    }
    if characters_of(key) == name@ {
        assert forall|i: int| 0 <= i < key.len() implies key[i] == ascii(name)[i] by {
            assert(characters_of(key)[i] == name@[i]);
        }
        assert(key =~= ascii(name));
    }
}

/// Exactly the methods of `Object.prototype` that can be bound are read off any
/// primitive.
pub proof fn every_value_has_the_object_methods(key: Seq<u8>)
    ensures
        primitive_proto_method(key) <==> {
            let name = characters_of(key);
            ||| name == "toString"@
            ||| name == "valueOf"@
            ||| name == "hasOwnProperty"@
            ||| name == "isPrototypeOf"@
            ||| name == "propertyIsEnumerable"@
            ||| name == "toLocaleString"@
        },
{
    reveal_strlit("toString");
    reveal_strlit("valueOf");
    reveal_strlit("hasOwnProperty");
    reveal_strlit("isPrototypeOf");
    reveal_strlit("propertyIsEnumerable");
    reveal_strlit("toLocaleString");
    lemma_reads_like(key, "toString");
    lemma_reads_like(key, "valueOf");
    lemma_reads_like(key, "hasOwnProperty");
    lemma_reads_like(key, "isPrototypeOf");
    lemma_reads_like(key, "propertyIsEnumerable");
    lemma_reads_like(key, "toLocaleString");
}

/// Exactly the methods that add, remove or copy elements are read off an array as
/// values.
pub proof fn arrays_have_the_stack_and_splice_methods(key: Seq<u8>)
    ensures
        array_method_value_name(key) <==> {
            let name = characters_of(key);
            ||| name == "push"@
            ||| name == "pop"@
            ||| name == "unshift"@
            ||| name == "shift"@
            ||| name == "splice"@
            ||| name == "slice"@
        },
{
    reveal_strlit("push");
    reveal_strlit("pop");
    reveal_strlit("unshift");
    reveal_strlit("shift");
    reveal_strlit("splice");
    reveal_strlit("slice");
    lemma_reads_like(key, "push");
    lemma_reads_like(key, "pop");
    lemma_reads_like(key, "unshift");
    lemma_reads_like(key, "shift");
    lemma_reads_like(key, "splice");
    lemma_reads_like(key, "slice");
}

/// Exactly the methods of sets are read off a set as values: those for single
/// elements and walks, those that combine and compare sets, and the iterator.
pub proof fn sets_have_the_classic_and_the_algebra_methods(key: Seq<u8>)
    ensures
        set_method_name(key) <==> {
            let name = characters_of(key);
            ||| name == "add"@
            ||| name == "has"@
            ||| name == "delete"@
            ||| name == "clear"@
            ||| name == "keys"@
            ||| name == "values"@
            ||| name == "entries"@
            ||| name == "forEach"@
            ||| name == "@@iterator"@
            ||| name == "union"@
            ||| name == "intersection"@
            ||| name == "difference"@
            ||| name == "symmetricDifference"@
            ||| name == "isSubsetOf"@
            ||| name == "isSupersetOf"@
            ||| name == "isDisjointFrom"@
        },
{
    reveal_strlit("add");
    reveal_strlit("has");
    reveal_strlit("delete");
    reveal_strlit("clear");
    reveal_strlit("keys");
    reveal_strlit("values");
    reveal_strlit("entries");
    reveal_strlit("forEach");
    reveal_strlit("@@iterator");
    reveal_strlit("union");
    reveal_strlit("intersection");
    reveal_strlit("difference");
    reveal_strlit("symmetricDifference");
    reveal_strlit("isSubsetOf");
    reveal_strlit("isSupersetOf");
    reveal_strlit("isDisjointFrom");
    lemma_reads_like(key, "add");
    lemma_reads_like(key, "has");
    lemma_reads_like(key, "delete");
    lemma_reads_like(key, "clear");
    lemma_reads_like(key, "keys");
    lemma_reads_like(key, "values");
    lemma_reads_like(key, "entries");
    lemma_reads_like(key, "forEach");
    lemma_reads_like(key, "@@iterator");
    lemma_reads_like(key, "union");
    lemma_reads_like(key, "intersection");
    lemma_reads_like(key, "difference");
    lemma_reads_like(key, "symmetricDifference");
    lemma_reads_like(key, "isSubsetOf");
    lemma_reads_like(key, "isSupersetOf");
    lemma_reads_like(key, "isDisjointFrom");
}

/// Exactly these are read off a timer: the methods that keep the process alive or
/// not, restart or stop the timer, and the hooks to dispose and convert it.
pub proof fn timers_have_the_ref_and_the_dispose_methods(key: Seq<u8>)
    ensures
        timer_handle_method_key(key) <==> {
            let name = characters_of(key);
            ||| name == "ref"@
            ||| name == "unref"@
            ||| name == "hasRef"@
            ||| name == "refresh"@
            ||| name == "close"@
            ||| name == "__perry_dispose__"@
            ||| name == "@@__perry_wk_dispose"@
            ||| name == "@@__perry_wk_toPrimitive"@
        },
{
    reveal_strlit("ref");
    reveal_strlit("unref");
    reveal_strlit("hasRef");
    reveal_strlit("refresh");
    reveal_strlit("close");
    reveal_strlit("__perry_dispose__");
    reveal_strlit("@@__perry_wk_dispose");
    reveal_strlit("@@__perry_wk_toPrimitive");
    lemma_reads_like(key, "ref");
    lemma_reads_like(key, "unref");
    lemma_reads_like(key, "hasRef");
    lemma_reads_like(key, "refresh");
    lemma_reads_like(key, "close");
    lemma_reads_like(key, "__perry_dispose__");
    lemma_reads_like(key, "@@__perry_wk_dispose");
    lemma_reads_like(key, "@@__perry_wk_toPrimitive");
}

} // verus!
