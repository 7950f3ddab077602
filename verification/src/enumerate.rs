//! `Object.keys`, `Object.values` and `Object.entries`.
//!
//! Objects list their own properties; strings, heap or short, list their
//! characters by index; every other value lists nothing.

use vstd::prelude::*;

use crate::heap::{array_at, object_at, CellView, Cells, Space};
use crate::key_lists::{array_from, array_of, array_room, elements, fresh_array};
use crate::keys::{array_length, js_string_key_bytes, key_bytes, resolved};
use crate::object_ops::load_slot;
use crate::runtime::ObjectRuntime;
use crate::value::{
    boxed, boxing_round_trips, payload, short_bytes, string_boxes_round_trip, tagged, JSValue,
    POINTER_TAG, STRING_TAG,
};
use crate::world::{
    kept, keys_ok, lemma_listed, lemma_only_added, lemma_spelled, only_added, own_keys,
    same_properties, slot_value, World,
};

verus! {

// ---------------------------------------------------------------------------
// Text
// ---------------------------------------------------------------------------
/// Does a byte of UTF-8 continue a character?
pub open spec fn continues(b: u8) -> bool {
    0x80 <= b < 0xC0
}

/// The characters of UTF-8 text.
pub open spec fn characters(text: Seq<u8>) -> Seq<Seq<u8>>
    decreases text.len(),
{
    if text.len() == 0 {
        Seq::empty()
    } else {
        let before = characters(text.drop_last());
        if continues(text.last()) && before.len() > 0 {
            before.drop_last().push(before.last().push(text.last()))
        } else {
            before.push(seq![text.last()])
        }
    }
}

/// Splits text into characters.
pub fn split_characters(text: &[u8]) -> (r: Vec<Vec<u8>>)
    ensures
        r@.len() == characters(text@).len(),
        r@.len() <= text@.len(),
        forall|i: int| 0 <= i < r@.len() ==> (#[trigger] r@[i])@ == characters(text@)[i],
        total_len(characters(text@)) == text@.len(),
{
    let mut out: Vec<Vec<u8>> = Vec::new();
    let mut i: usize = 0;
    assert(text@.take(0) =~= Seq::<u8>::empty());
    while i < text.len()
        invariant
            i <= text@.len(),
            out@.len() <= i,
            out@.len() == characters(text@.take(i as int)).len(),
            forall|j: int|
                0 <= j < out@.len() ==> (#[trigger] out@[j])@ == characters(
                    text@.take(i as int),
                )[j],
            total_len(characters(text@.take(i as int))) == i,
        decreases text@.len() - i,
    {
        let b: u8 = text[i];
        let ghost before = characters(text@.take(i as int));
        assert(text@.take(i + 1).drop_last() =~= text@.take(i as int));
        assert(text@.take(i + 1).last() == b);
        if 0x80 <= b && b < 0xC0 && out.len() > 0 {
            let mut last = out.pop().unwrap();
            last.push(b);
            out.push(last);
            proof {
                let last = before.last().push(b);
                assert(before =~= before.drop_last().push(before.last()));
                assert(before.drop_last().push(last).drop_last() =~= before.drop_last());
            }
        } else {
            let mut one: Vec<u8> = Vec::new();
            one.push(b);
            assert(one@ =~= seq![b]);
            out.push(one);
            assert(before.push(seq![b]).drop_last() =~= before);
        }
        i += 1;
    }
    assert(text@.take(i as int) =~= text@);
    out
}

/// Bytes in a list of names.
pub open spec fn total_len(names: Seq<Seq<u8>>) -> int
    decreases names.len(),
{
    if names.len() == 0 {
        0
    } else {
        total_len(names.drop_last()) + names.last().len()
    }
}

/// The decimal digits of a number.
pub open spec fn decimal(n: nat) -> Seq<u8>
    decreases n,
{
    if n < 10 {
        seq![(48 + n) as u8]
    } else {
        decimal(n / 10).push((48 + n % 10) as u8)
    }
}

spec fn power_of_ten(k: nat) -> nat
    decreases k,
{
    if k == 0 {
        1
    } else {
        10 * power_of_ten((k - 1) as nat)
    }
}

proof fn lemma_decimal_len(n: nat, k: nat)
    requires
        n < power_of_ten(k),
        1 <= k,
    ensures
        1 <= decimal(n).len() <= k,
    decreases n,
{
    if n >= 10 {
        assert(k >= 2) by {
            if k == 1 {
                assert(power_of_ten(1) == 10) by {
                    reveal_with_fuel(power_of_ten, 2);
                }
            }
        }
        lemma_decimal_len(n / 10, (k - 1) as nat);
    }
}

/// Writes a number in decimal.
pub fn decimal_bytes(n: u32) -> (r: Vec<u8>)
    ensures
        r@ == decimal(n as nat),
        r@.len() <= 10,
    decreases n,
{
    proof {
        reveal_with_fuel(power_of_ten, 11);
        assert(power_of_ten(10) == 10_000_000_000);
        lemma_decimal_len(n as nat, 10);
    }
    if n < 10 {
        let mut r: Vec<u8> = Vec::new();
        r.push((48 + n) as u8);
        assert(r@ =~= decimal(n as nat));
        r
    } else {
        let mut r = decimal_bytes(n / 10);
        r.push((48 + n % 10) as u8);
        r
    }
}

// ---------------------------------------------------------------------------
// New cells
// ---------------------------------------------------------------------------
/// An array of just these elements.
pub open spec fn list_cell(list: Seq<u64>) -> CellView {
    CellView::Array(array_of(list, list.len() as int))
}

/// The heap once strings with these texts were allocated, one after the other.
pub open spec fn strings_allocated(h: Space, texts: Seq<Seq<u8>>) -> Space
    decreases texts.len(),
{
    if texts.len() == 0 {
        h
    } else {
        strings_allocated(h, texts.drop_last()).allocated(CellView::String(texts.last()))
    }
}

/// Those strings, boxed.
pub open spec fn strings_boxed(h: Space, texts: Seq<Seq<u8>>) -> Seq<u64>
    decreases texts.len(),
{
    if texts.len() == 0 {
        Seq::empty()
    } else {
        strings_boxed(h, texts.drop_last()).push(
            boxed(STRING_TAG, strings_allocated(h, texts.drop_last()).next_cell()),
        )
    }
}

/// The heap once the first `n` pairs of a key and a value were allocated.
pub open spec fn pairs_allocated(h: Space, keys: Seq<u64>, values: Seq<u64>, n: nat) -> Space
    decreases n,
{
    if n == 0 {
        h
    } else {
        pairs_allocated(h, keys, values, (n - 1) as nat).allocated(
            list_cell(seq![keys[n - 1], values[n - 1]]),
        )
    }
}

/// Those pairs, boxed.
pub open spec fn pairs_boxed(h: Space, keys: Seq<u64>, values: Seq<u64>, n: nat) -> Seq<u64> {
    Seq::new(
        n,
        |i: int|
            boxed(POINTER_TAG, pairs_allocated(h, keys, values, i as nat).next_cell()),
    )
}

/// The indices below `n` in decimal.
pub open spec fn decimals(n: nat) -> Seq<Seq<u8>> {
    Seq::new(n, |i: int| decimal(i as nat))
}

/// Allocates a string and boxes it.
fn new_string(rt: &mut ObjectRuntime, text: &[u8]) -> (r: u64)
    requires
        old(rt).wf(),
        text@.len() + 64 <= old(rt).heap.room(),
    ensures
        final(rt).wf(),
        only_added(old(rt).world(), final(rt).world()),
        *final(rt) == (ObjectRuntime { heap: final(rt).heap, ..*old(rt) }),
        key_bytes(final(rt).heap@, r) == Some(text@),
        r == boxed(STRING_TAG, old(rt).heap.next_cell()),
        final(rt).heap.space() == old(rt).heap.space().allocated(CellView::String(text@)),
        final(rt).heap.room() >= old(rt).heap.room() - text@.len() - 64,
{
    let s = rt.new_string(text);
    proof {
        assert(rt.heap@.contains_key(s));
        string_boxes_round_trip(s);
    }
    JSValue::string(s).bits()
}

/// Is `r` a new array with this many elements?
pub open spec fn is_list(cells: Cells, r: usize) -> bool {
    &&& array_at(cells, r) is Some
    &&& array_at(cells, r)->0.forward == 0
    &&& array_length(cells, r) == elements(cells, r).len()
}

/// Allocates an array.
fn new_list(rt: &mut ObjectRuntime, list: &Vec<u64>) -> (r: usize)
    requires
        old(rt).wf(),
        array_room(list@.len() as int) <= old(rt).heap.room(),
        list@.len() <= u32::MAX,
    ensures
        final(rt).wf(),
        only_added(old(rt).world(), final(rt).world()),
        *final(rt) == (ObjectRuntime { heap: final(rt).heap, ..*old(rt) }),
        !old(rt).heap@.contains_key(r),
        r == old(rt).heap.next_cell(),
        final(rt).heap.space() == old(rt).heap.space().allocated(list_cell(list@)),
        is_list(final(rt).heap@, r),
        elements(final(rt).heap@, r) == list@,
        final(rt).heap.room() == old(rt).heap.room() - array_room(list@.len() as int),
{
    let ghost w0 = rt.world();
    let r = array_from(&mut rt.heap, list, list.len() as u32);
    proof {
        let array = array_of(list@, list@.len() as int);
        assert(rt.world() == (World { cells: w0.cells.insert(r, fresh_array(array)), ..w0 }));
        lemma_listed(w0, r, array);
        assert(elements(rt.heap@, r) =~= list@);
        assert(resolved(rt.heap@, r) == r);
    }
    r
}

// ---------------------------------------------------------------------------
// Listing
// ---------------------------------------------------------------------------
/// What a value lists.
pub enum Listed {
    /// The characters of a string.
    Characters(Seq<Seq<u8>>),
    /// The own properties of the object at this address.
    Properties(usize),
    Nothing,
}

pub open spec fn listed(cells: Cells, bits: u64) -> Listed {
    match key_bytes(cells, bits) {
        Some(text) => Listed::Characters(characters(text)),
        None => if tagged(bits, POINTER_TAG) && object_at(cells, payload(bits)) is Some {
            Listed::Properties(payload(bits))
        } else {
            Listed::Nothing
        },
    }
}

/// Room on the heap that a listing of `count` things with `bytes` bytes of text
/// may take.
pub open spec fn listing_room(count: int, bytes: int) -> int {
    bytes + 256 * (count + 1)
}

/// The room that listing a value may take.
pub open spec fn room_to_list(cells: Cells, bits: u64) -> int {
    match listed(cells, bits) {
        Listed::Characters(c) => listing_room(
            c.len() as int,
            key_bytes(cells, bits)->0.len() as int,
        ),
        Listed::Properties(o) => listing_room(own_keys(cells, o).len() as int, 0),
        Listed::Nothing => listing_room(0, 0),
    }
}

/// A value as it is listed.
enum Listing {
    Characters(Vec<Vec<u8>>),
    /// The address and the elements of the keys array.
    Properties(usize, Vec<u64>),
    Nothing,
}

/// Finds out what a value lists.
fn list_value(rt: &ObjectRuntime, value: JSValue) -> (r: Listing)
    requires
        rt.wf(),
    ensures
        match listed(rt.heap@, value.bits) {
            Listed::Characters(c) => {
                &&& r matches Listing::Characters(v) && v@.len() == c.len() && (forall|i: int|
                    0 <= i < c.len() ==> (#[trigger] v@[i])@ == c[i])
                &&& total_len(c) == key_bytes(rt.heap@, value.bits)->0.len()
                &&& c.len() <= u32::MAX
            },
            Listed::Properties(o) => {
                r matches Listing::Properties(a, v) && a == o && v@ == elements(
                    rt.heap@,
                    object_at(rt.heap@, o)->0.header.keys_array,
                ) && v@.len() < u32::MAX
            },
            Listed::Nothing => r is Nothing,
        },
{
    let mut scratch: Vec<u8> = Vec::new();
    if let Some(text) = js_string_key_bytes(&rt.heap, value, &mut scratch) {
        let v = split_characters(text);
        assert(v@.len() <= u32::MAX) by {
            if tagged(value.bits, STRING_TAG) {
                assert(rt.heap@.contains_key(payload(value.bits)));
            }
        }
        return Listing::Characters(v);
    }
    if !value.is_pointer() {
        return Listing::Nothing;
    }
    let addr = value.as_pointer();
    match rt.heap.object(addr) {
        None => Listing::Nothing,
        Some(o) => {
            let keys = o.header.keys_array;
            let ghost list = elements(rt.heap@, keys);
            let mut out: Vec<u64> = Vec::new();
            if keys != 0 {
                assert(keys_ok(rt.heap@, keys));
                assert(rt.heap@.contains_key(keys));
            }
            if let Some(a) = rt.heap.array(keys) {
                let mut i: u32 = 0;
                while i < a.length
                    invariant
                        i <= a.length <= a.slots@.len(),
                        out@ =~= a.slots@.take(i as int),
                    decreases a.length - i,
                {
                    out.push(a.slots[i as usize]);
                    i += 1;
                }
            }
            assert(out@ =~= list);
            Listing::Properties(addr, out)
        },
    }
}

/// Strings that spell the indices below `n`.
fn index_strings(rt: &mut ObjectRuntime, n: usize) -> (r: Vec<u64>)
    requires
        old(rt).wf(),
        n <= u32::MAX,
        74 * n <= old(rt).heap.room(),
    ensures
        final(rt).wf(),
        only_added(old(rt).world(), final(rt).world()),
        *final(rt) == (ObjectRuntime { heap: final(rt).heap, ..*old(rt) }),
        final(rt).heap.room() >= old(rt).heap.room() - 74 * n,
        r@ == strings_boxed(old(rt).heap.space(), decimals(n as nat)),
        final(rt).heap.space() == strings_allocated(
            old(rt).heap.space(),
            decimals(n as nat),
        ),
        r@.len() == n,
        forall|i: int|
            0 <= i < n ==> key_bytes(final(rt).heap@, #[trigger] r@[i]) == Some(decimal(i as nat)),
{
    let ghost w0 = rt.world();
    let ghost room = rt.heap.room();
    let ghost texts = decimals(n as nat);
    let mut out: Vec<u64> = Vec::new();
    let mut i: usize = 0;
    while i < n
        invariant
            i <= n <= u32::MAX,
            texts == decimals(n as nat),
            rt.heap.space() == strings_allocated(old(rt).heap.space(), texts.take(i as int)),
            out@ == strings_boxed(old(rt).heap.space(), texts.take(i as int)),
            74 * n <= room,
            rt.wf(),
            only_added(w0, rt.world()),
            *rt == (ObjectRuntime { heap: rt.heap, ..*old(rt) }),
            rt.heap.room() >= room - 74 * i,
            out@.len() == i,
            forall|j: int|
                0 <= j < i ==> key_bytes(rt.heap@, #[trigger] out@[j]) == Some(decimal(j as nat)),
        decreases n - i,
    {
        let ghost w1 = rt.world();
        let digits = decimal_bytes(i as u32);
        let bits = new_string(rt, digits.as_slice());
        proof {
            lemma_only_added(w1, rt.world());
            assert(texts.take(i + 1).drop_last() =~= texts.take(i as int));
            assert(texts.take(i + 1).last() == digits@);
        }
        out.push(bits);
        i += 1;
    }
    assert(texts.take(i as int) =~= texts);
    out
}

/// Strings of these characters.
fn character_strings(rt: &mut ObjectRuntime, text: &Vec<Vec<u8>>, Ghost(chars): Ghost<Seq<Seq<u8>>>)
    -> (r: Vec<u64>)
    requires
        old(rt).wf(),
        text@.len() == chars.len(),
        forall|i: int| 0 <= i < chars.len() ==> (#[trigger] text@[i])@ == chars[i],
        64 * chars.len() + total_len(chars) <= old(rt).heap.room(),
    ensures
        final(rt).wf(),
        only_added(old(rt).world(), final(rt).world()),
        *final(rt) == (ObjectRuntime { heap: final(rt).heap, ..*old(rt) }),
        final(rt).heap.room() >= old(rt).heap.room() - 64 * chars.len() - total_len(chars),
        r@ == strings_boxed(old(rt).heap.space(), chars),
        final(rt).heap.space() == strings_allocated(old(rt).heap.space(), chars),
        r@.len() == chars.len(),
        forall|i: int|
            0 <= i < chars.len() ==> key_bytes(final(rt).heap@, #[trigger] r@[i]) == Some(
                chars[i],
            ),
{
    let ghost w0 = rt.world();
    let ghost room = rt.heap.room();
    let mut out: Vec<u64> = Vec::new();
    let mut i: usize = 0;
    while i < text.len()
        invariant
            i <= text@.len() == chars.len(),
            forall|j: int| 0 <= j < chars.len() ==> (#[trigger] text@[j])@ == chars[j],
            64 * chars.len() + total_len(chars) <= room,
            rt.heap.space() == strings_allocated(old(rt).heap.space(), chars.take(i as int)),
            out@ == strings_boxed(old(rt).heap.space(), chars.take(i as int)),
            rt.wf(),
            only_added(w0, rt.world()),
            *rt == (ObjectRuntime { heap: rt.heap, ..*old(rt) }),
            rt.heap.room() >= room - 64 * i - total_len(chars.take(i as int)),
            out@.len() == i,
            forall|j: int|
                0 <= j < i ==> key_bytes(rt.heap@, #[trigger] out@[j]) == Some(chars[j]),
        decreases text@.len() - i,
    {
        let ghost w1 = rt.world();
        proof {
            assert(chars.take(i + 1).drop_last() =~= chars.take(i as int));
            lemma_total_prefix(chars, i + 1);
        }
        let bits = new_string(rt, text[i].as_slice());
        proof {
            lemma_only_added(w1, rt.world());
        }
        out.push(bits);
        i += 1;
    }
    assert(chars.take(i as int) =~= chars);
    out
}

proof fn lemma_total_prefix(names: Seq<Seq<u8>>, n: int)
    requires
        0 <= n <= names.len(),
    ensures
        0 <= total_len(names.take(n)) <= total_len(names),
    decreases names.len(),
{
    if n < names.len() {
        lemma_total_prefix(names.drop_last(), n);
        assert(names.drop_last().take(n) =~= names.take(n));
    } else {
        assert(names.take(n) =~= names);
        lemma_total_nonnegative(names);
    }
}

proof fn lemma_total_nonnegative(names: Seq<Seq<u8>>)
    ensures
        0 <= total_len(names),
    decreases names.len(),
{
    if names.len() > 0 {
        lemma_total_nonnegative(names.drop_last());
    }
}

/// The values in the first `n` slots of an object.
fn slot_values(rt: &ObjectRuntime, obj: usize, n: usize) -> (r: Vec<u64>)
    requires
        rt.wf(),
        object_at(rt.heap@, obj) is Some,
        n < u32::MAX,
    ensures
        r@.len() == n,
        forall|i: int|
            0 <= i < n ==> #[trigger] r@[i] == slot_value(
                rt.heap@,
                rt.hot.overflow@.fields,
                obj,
                i,
            ),
{
    let mut out: Vec<u64> = Vec::new();
    let mut i: usize = 0;
    while i < n
        invariant
            i <= n < u32::MAX,
            rt.wf(),
            object_at(rt.heap@, obj) is Some,
            out@.len() == i,
            forall|j: int|
                0 <= j < i ==> #[trigger] out@[j] == slot_value(
                    rt.heap@,
                    rt.hot.overflow@.fields,
                    obj,
                    j,
                ),
        decreases n - i,
    {
        out.push(load_slot(rt, obj, i as u32).bits());
        i += 1;
    }
    out
}

/// Boxed arrays of a key and its value.
fn pair_up(rt: &mut ObjectRuntime, keys: &Vec<u64>, values: &Vec<u64>) -> (r: Vec<u64>)
    requires
        old(rt).wf(),
        keys@.len() == values@.len(),
        32 * keys@.len() <= old(rt).heap.room(),
    ensures
        final(rt).wf(),
        only_added(old(rt).world(), final(rt).world()),
        *final(rt) == (ObjectRuntime { heap: final(rt).heap, ..*old(rt) }),
        final(rt).heap.room() >= old(rt).heap.room() - 32 * keys@.len(),
        r@ == pairs_boxed(old(rt).heap.space(), keys@, values@, keys@.len()),
        final(rt).heap.space() == pairs_allocated(
            old(rt).heap.space(),
            keys@,
            values@,
            keys@.len(),
        ),
        r@.len() == keys@.len(),
        forall|i: int|
            0 <= i < r@.len() ==> is_pair(final(rt).heap@, #[trigger] r@[i], keys@[i], values@[i]),
{
    let ghost w0 = rt.world();
    let ghost room = rt.heap.room();
    let mut out: Vec<u64> = Vec::new();
    let mut i: usize = 0;
    while i < keys.len()
        invariant
            i <= keys@.len() == values@.len(),
            32 * keys@.len() <= room,
            rt.heap.space() == pairs_allocated(
                old(rt).heap.space(),
                keys@,
                values@,
                i as nat,
            ),
            out@ =~= pairs_boxed(old(rt).heap.space(), keys@, values@, i as nat),
            rt.wf(),
            only_added(w0, rt.world()),
            *rt == (ObjectRuntime { heap: rt.heap, ..*old(rt) }),
            rt.heap.room() >= room - 32 * i,
            out@.len() == i,
            forall|j: int|
                0 <= j < i ==> is_pair(rt.heap@, #[trigger] out@[j], keys@[j], values@[j]),
        decreases keys@.len() - i,
    {
        let ghost w1 = rt.world();
        let mut pair: Vec<u64> = Vec::new();
        pair.push(keys[i]);
        pair.push(values[i]);
        assert(pair@ =~= seq![keys@[i as int], values@[i as int]]);
        let list = new_list(rt, &pair);
        proof {
            lemma_only_added(w1, rt.world());
            assert(rt.heap@.contains_key(list));
            assert(0x7FFD_0000_0000_0000u64 & 0x0000_FFFF_FFFF_FFFF == 0) by (bit_vector);
            boxing_round_trips(POINTER_TAG, list);
            assert forall|j: int| 0 <= j < i implies is_pair(
                rt.heap@,
                #[trigger] out@[j],
                keys@[j],
                values@[j],
            ) by {
                assert(is_pair(w1.cells, out@[j], keys@[j], values@[j]));
            }
        }
        out.push(JSValue::pointer(list).bits());
        i += 1;
    }
    out
}

/// Does a value refer to an array of just these two?
pub open spec fn is_pair(cells: Cells, bits: u64, key: u64, value: u64) -> bool {
    &&& tagged(bits, POINTER_TAG)
    &&& array_at(cells, payload(bits)) is Some
    &&& elements(cells, payload(bits)) == seq![key, value]
}

/// Does `list` hold the keys that `bits` lists?
pub open spec fn lists_keys(before: World, after: Cells, bits: u64, list: Seq<u64>) -> bool {
    match listed(before.cells, bits) {
        Listed::Characters(c) => {
            &&& list.len() == c.len()
            &&& forall|i: int|
                0 <= i < c.len() ==> key_bytes(after, #[trigger] list[i]) == Some(
                    decimal(i as nat),
                )
        },
        Listed::Properties(o) => {
            let names = own_keys(before.cells, o);
            &&& list.len() == names.len()
            &&& forall|i: int|
                0 <= i < names.len() ==> key_bytes(after, #[trigger] list[i]) == Some(names[i])
        },
        Listed::Nothing => list.len() == 0,
    }
}

/// Does `list` hold the values that `bits` lists?
pub open spec fn lists_values(before: World, after: Cells, bits: u64, list: Seq<u64>) -> bool {
    match listed(before.cells, bits) {
        Listed::Characters(c) => {
            &&& list.len() == c.len()
            &&& forall|i: int|
                0 <= i < c.len() ==> key_bytes(after, #[trigger] list[i]) == Some(c[i])
        },
        Listed::Properties(o) => {
            let names = own_keys(before.cells, o);
            &&& list.len() == names.len()
            &&& forall|i: int|
                0 <= i < names.len() ==> Some(#[trigger] list[i]) == before.property(o, names[i])
        },
        Listed::Nothing => list.len() == 0,
    }
}

/// The heap and the list of keys once the keys of a value were listed.
pub open spec fn keys_listed(h: Space, bits: u64) -> (Space, Seq<u64>) {
    match listed(h.cells, bits) {
        Listed::Characters(c) => (
            strings_allocated(h, decimals(c.len())),
            strings_boxed(h, decimals(c.len())),
        ),
        Listed::Properties(o) => (
            h,
            elements(h.cells, object_at(h.cells, o)->0.header.keys_array),
        ),
        Listed::Nothing => (h, Seq::empty()),
    }
}

/// The heap and the list of values once the values of a value were listed.
pub open spec fn values_listed(h: Space, overflow: Map<usize, Seq<u64>>, bits: u64) -> (
    Space,
    Seq<u64>,
) {
    match listed(h.cells, bits) {
        Listed::Characters(c) => (strings_allocated(h, c), strings_boxed(h, c)),
        Listed::Properties(o) => (
            h,
            Seq::new(
                own_keys(h.cells, o).len(),
                |i: int| slot_value(h.cells, overflow, o, i),
            ),
        ),
        Listed::Nothing => (h, Seq::empty()),
    }
}

/// The keys that a value lists.
fn keys_of(rt: &mut ObjectRuntime, value: JSValue) -> (r: Vec<u64>)
    requires
        old(rt).wf(),
        room_to_list(old(rt).heap@, value.bits) <= old(rt).heap.room(),
    ensures
        final(rt).wf(),
        only_added(old(rt).world(), final(rt).world()),
        *final(rt) == (ObjectRuntime { heap: final(rt).heap, ..*old(rt) }),
        lists_keys(old(rt).world(), final(rt).heap@, value.bits, r@),
        (final(rt).heap.space(), r@) == keys_listed(old(rt).heap.space(), value.bits),
        r@.len() <= u32::MAX,
        match listed(old(rt).heap@, value.bits) {
            Listed::Characters(c) => final(rt).heap.room() >= old(rt).heap.room() - 74 * c.len(),
            _ => *final(rt) == *old(rt),
        },
{
    let ghost w0 = rt.world();
    match list_value(rt, value) {
        Listing::Characters(v) => index_strings(rt, v.len()),
        Listing::Properties(obj, list) => {
            proof {
                lemma_spelled(w0, obj);
                let names = own_keys(w0.cells, obj);
                assert forall|i: int| 0 <= i < names.len() implies key_bytes(
                    w0.cells,
                    #[trigger] list@[i],
                ) == Some(names[i]) by {}
            }
            list
        },
        Listing::Nothing => Vec::new(),
    }
}

/// The values that a value lists.
fn values_of(rt: &mut ObjectRuntime, value: JSValue) -> (r: Vec<u64>)
    requires
        old(rt).wf(),
        ({
            match listed(old(rt).heap@, value.bits) {
                Listed::Characters(c) => 64 * c.len() + key_bytes(
                    old(rt).heap@,
                    value.bits,
                )->0.len() <= old(rt).heap.room(),
                _ => true,
            }
        }),
    ensures
        final(rt).wf(),
        only_added(old(rt).world(), final(rt).world()),
        *final(rt) == (ObjectRuntime { heap: final(rt).heap, ..*old(rt) }),
        lists_values(old(rt).world(), final(rt).heap@, value.bits, r@),
        (final(rt).heap.space(), r@) == values_listed(
            old(rt).heap.space(),
            old(rt).hot.overflow@.fields,
            value.bits,
        ),
        r@.len() <= u32::MAX,
        match listed(old(rt).heap@, value.bits) {
            Listed::Characters(c) => final(rt).heap.room() >= old(rt).heap.room() - 64 * c.len()
                - key_bytes(old(rt).heap@, value.bits)->0.len(),
            _ => final(rt).heap.room() == old(rt).heap.room(),
        },
{
    let ghost w0 = rt.world();
    match list_value(rt, value) {
        Listing::Characters(v) => {
            let ghost chars = listed(w0.cells, value.bits)->Characters_0;
            character_strings(rt, &v, Ghost(chars))
        },
        Listing::Properties(obj, list) => {
            proof {
                lemma_spelled(w0, obj);
            }
            let r = slot_values(rt, obj, list.len());
            proof {
                let names = own_keys(w0.cells, obj);
                assert forall|i: int| 0 <= i < names.len() implies Some(#[trigger] r@[i])
                    == w0.property(obj, names[i]) by {
                    assert(names.contains(names[i]));
                    assert(names.index_of(names[i]) == i);
                }
                assert(r@ =~= values_listed(
                    rt.heap.space(),
                    rt.hot.overflow@.fields,
                    value.bits,
                ).1);
            }
            r
        },
        Listing::Nothing => Vec::new(),
    }
}

/// `Object.keys`: the address of a new array.
pub fn js_object_keys_value(rt: &mut ObjectRuntime, value: JSValue) -> (r: usize)
    requires
        old(rt).wf(),
        room_to_list(old(rt).heap@, value.bits) <= old(rt).heap.room(),
    ensures
        final(rt).wf(),
        final(rt).heap.room() >= old(rt).heap.room() - room_to_list(old(rt).heap@, value.bits),
        only_added(old(rt).world(), final(rt).world()),
        *final(rt) == (ObjectRuntime { heap: final(rt).heap, ..*old(rt) }),
        same_properties(old(rt).world(), final(rt).world()),
        kept(old(rt).heap@, final(rt).heap@),
        ({
            let (h, list) = keys_listed(old(rt).heap.space(), value.bits);
            &&& r == h.next_cell()
            &&& final(rt).heap.space() == h.allocated(list_cell(list))
        }),
        !old(rt).heap@.contains_key(r),
        is_list(final(rt).heap@, r),
        lists_keys(
            old(rt).world(),
            final(rt).heap@,
            value.bits,
            elements(final(rt).heap@, r),
        ),
{
    let ghost w0 = rt.world();
    let list = keys_of(rt, value);
    let ghost w1 = rt.world();
    let r = new_list(rt, &list);
    proof {
        lemma_only_added(w1, rt.world());
        lemma_only_added(w0, rt.world());
    }
    r
}

/// `Object.values`: the address of a new array.
pub fn js_object_values_value(rt: &mut ObjectRuntime, value: JSValue) -> (r: usize)
    requires
        old(rt).wf(),
        room_to_list(old(rt).heap@, value.bits) <= old(rt).heap.room(),
    ensures
        final(rt).wf(),
        final(rt).heap.room() >= old(rt).heap.room() - room_to_list(old(rt).heap@, value.bits),
        only_added(old(rt).world(), final(rt).world()),
        *final(rt) == (ObjectRuntime { heap: final(rt).heap, ..*old(rt) }),
        same_properties(old(rt).world(), final(rt).world()),
        kept(old(rt).heap@, final(rt).heap@),
        ({
            let (h, list) = values_listed(
                old(rt).heap.space(),
                old(rt).hot.overflow@.fields,
                value.bits,
            );
            &&& r == h.next_cell()
            &&& final(rt).heap.space() == h.allocated(list_cell(list))
        }),
        !old(rt).heap@.contains_key(r),
        is_list(final(rt).heap@, r),
        lists_values(
            old(rt).world(),
            final(rt).heap@,
            value.bits,
            elements(final(rt).heap@, r),
        ),
{
    let ghost w0 = rt.world();
    let list = values_of(rt, value);
    let ghost w1 = rt.world();
    let r = new_list(rt, &list);
    proof {
        lemma_only_added(w1, rt.world());
        lemma_only_added(w0, rt.world());
    }
    r
}

/// `Object.entries`: the address of a new array of arrays, each of a key and
/// its value.
pub fn js_object_entries_value(rt: &mut ObjectRuntime, value: JSValue) -> (r: usize)
    requires
        old(rt).wf(),
        room_to_list(old(rt).heap@, value.bits) <= old(rt).heap.room(),
    ensures
        final(rt).wf(),
        final(rt).heap.room() >= old(rt).heap.room() - room_to_list(old(rt).heap@, value.bits),
        only_added(old(rt).world(), final(rt).world()),
        *final(rt) == (ObjectRuntime { heap: final(rt).heap, ..*old(rt) }),
        same_properties(old(rt).world(), final(rt).world()),
        kept(old(rt).heap@, final(rt).heap@),
        ({
            let (h1, keys) = keys_listed(old(rt).heap.space(), value.bits);
            let (h2, values) = values_listed(h1, old(rt).hot.overflow@.fields, value.bits);
            let h3 = pairs_allocated(h2, keys, values, keys.len());
            &&& r == h3.next_cell()
            &&& final(rt).heap.space() == h3.allocated(
                list_cell(pairs_boxed(h2, keys, values, keys.len())),
            )
        }),
        !old(rt).heap@.contains_key(r),
        is_list(final(rt).heap@, r),
        exists|keys: Seq<u64>, values: Seq<u64>|
            {
                let list = elements(final(rt).heap@, r);
                &&& #[trigger] lists_keys(old(rt).world(), final(rt).heap@, value.bits, keys)
                &&& #[trigger] lists_values(old(rt).world(), final(rt).heap@, value.bits, values)
                &&& list.len() == keys.len()
                &&& forall|i: int|
                    0 <= i < list.len() ==> is_pair(
                        final(rt).heap@,
                        #[trigger] list[i],
                        keys[i],
                        values[i],
                    )
            },
{
    let ghost w0 = rt.world();
    let keys = keys_of(rt, value);
    let ghost w1 = rt.world();
    proof {
        lemma_only_added(w0, w1);
    }
    let values = values_of(rt, value);
    let ghost w2 = rt.world();
    proof {
        lemma_only_added(w1, w2);
    }
    let list = pair_up(rt, &keys, &values);
    let ghost w3 = rt.world();
    proof {
        lemma_only_added(w2, w3);
    }
    let r = new_list(rt, &list);
    proof {
        let w4 = rt.world();
        lemma_only_added(w3, w4);
        lemma_only_added(w0, w4);
        assert(lists_keys(w0, w4.cells, value.bits, keys@));
        assert(lists_values(w0, w4.cells, value.bits, values@));
        assert forall|i: int| 0 <= i < list@.len() implies is_pair(
            w4.cells,
            #[trigger] list@[i],
            keys@[i],
            values@[i],
        ) by {
            assert(is_pair(w3.cells, list@[i], keys@[i], values@[i]));
        }
    }
    r
}

// ---------------------------------------------------------------------------
// Laws
// ---------------------------------------------------------------------------
/// The number that a row of digits stands for, read from the left.
pub open spec fn numeral(digits: Seq<u8>) -> int
    decreases digits.len(),
{
    if digits.len() == 0 {
        0
    } else {
        10 * numeral(digits.drop_last()) + (digits.last() - 48)
    }
}

/// An index key is the decimal numeral of its index: digits alone, no leading
/// zero but in "0" itself, and read as a number it gives the index.
pub proof fn index_keys_are_numerals(n: nat)
    ensures
        decimal(n).len() > 0,
        forall|i: int| 0 <= i < decimal(n).len() ==> 48 <= #[trigger] decimal(n)[i] <= 57,
        decimal(n)[0] == 48 ==> decimal(n).len() == 1,
        numeral(decimal(n)) == n,
    decreases n,
{
    reveal_with_fuel(numeral, 2);
    if n < 10 {
        assert(decimal(n).drop_last() =~= Seq::<u8>::empty());
    } else {
        index_keys_are_numerals(n / 10);
        assert(decimal(n).drop_last() =~= decimal(n / 10));
        if decimal(n)[0] == 48 {
            assert(decimal(n / 10)[0] == 48);
            assert(decimal(n / 10).len() == 1);
            assert(decimal(n / 10).drop_last() =~= Seq::<u8>::empty());
            assert(numeral(decimal(n / 10)) == 0);
        }
    }
}

/// Different indices have different keys.
pub proof fn index_keys_differ(m: nat, n: nat)
    requires
        m != n,
    ensures
        decimal(m) != decimal(n),
{
    index_keys_are_numerals(m);
    index_keys_are_numerals(n);
}

/// The characters of a text, one after the other, are the text. None is empty;
/// within one only bytes that continue a character follow the first, and each
/// but the first begins with a byte that does not.
pub proof fn characters_make_up_the_text(text: Seq<u8>)
    ensures
        characters(text).flatten() == text,
        forall|i: int|
            0 <= i < characters(text).len() ==> (#[trigger] characters(text)[i]).len() > 0,
        forall|i: int, j: int|
            0 <= i < characters(text).len() && 0 < j < characters(text)[i].len() ==> 0x80
                <= #[trigger] characters(text)[i][j] < 0xC0,
        forall|i: int|
            0 < i < characters(text).len() ==> !(0x80 <= (#[trigger] characters(text)[i])[0]
                < 0xC0),
    decreases text.len(),
{
    let all = characters(text);
    all.lemma_flatten_and_flatten_alt_are_equivalent();
    if text.len() > 0 {
        let before = characters(text.drop_last());
        characters_make_up_the_text(text.drop_last());
        before.lemma_flatten_and_flatten_alt_are_equivalent();
        before.drop_last().lemma_flatten_and_flatten_alt_are_equivalent();
        assert(text =~= text.drop_last().push(text.last()));
        if continues(text.last()) && before.len() > 0 {
            let grown = before.last().push(text.last());
            assert(all.drop_last() =~= before.drop_last());
            assert(all.last() == grown);
            assert(before.flatten_alt() == before.drop_last().flatten_alt() + before.last());
            assert(all.flatten_alt() =~= before.flatten_alt().push(text.last()));
        } else {
            assert(all.drop_last() =~= before);
            assert(all.last() == seq![text.last()]);
            assert(all.flatten_alt() =~= before.flatten_alt().push(text.last()));
        }
    } else {
        assert(all.flatten_alt() =~= text);
    }
}

/// A string lists its characters, whether it is on the heap or short; a
/// reference to an object lists the object; anything else lists nothing.
pub proof fn values_list_what_they_hold(cells: Cells, bits: u64)
    ensures
        ({
            let tag = bits & 0xFFFF_0000_0000_0000u64;
            let addr = (bits & 0x0000_FFFF_FFFF_FFFFu64) as usize;
            match listed(cells, bits) {
                Listed::Characters(c) => {
                    &&& c == characters(c.flatten())
                    &&& {
                        ||| tag == 0x7FFF_0000_0000_0000 && cells.contains_key(addr)
                            && cells[addr].cell == CellView::String(c.flatten())
                        ||| tag == 0x7FF9_0000_0000_0000 && c.flatten() == short_bytes(bits)
                    }
                },
                Listed::Properties(o) => {
                    &&& tag == 0x7FFD_0000_0000_0000
                    &&& o == addr
                    &&& cells.contains_key(addr)
                    &&& cells[addr].cell is Object
                },
                Listed::Nothing => {
                    &&& tag != 0x7FF9_0000_0000_0000
                    &&& tag == 0x7FFF_0000_0000_0000 ==> !cells.contains_key(addr)
                        || !(cells[addr].cell is String)
                    &&& tag == 0x7FFD_0000_0000_0000 ==> !cells.contains_key(addr)
                        || !(cells[addr].cell is Object)
                },
            }
        }),
{
    if let Some(text) = key_bytes(cells, bits) {
        characters_make_up_the_text(text);
    }
}

/// The keys and the values that a value lists belong together. Those of an
/// object are its properties, every own key once and in order, each with the
/// value of its property. Those of a string are the indices from zero on, and
/// the values spell the string.
pub proof fn listed_keys_and_values_match(
    before: World,
    after: Cells,
    bits: u64,
    keys: Seq<u64>,
    values: Seq<u64>,
)
    requires
        lists_keys(before, after, bits, keys),
        lists_values(before, after, bits, values),
    ensures
        keys.len() == values.len(),
        match listed(before.cells, bits) {
            Listed::Characters(_) => {
                &&& forall|i: int|
                    0 <= i < keys.len() ==> (#[trigger] key_bytes(after, keys[i])) is Some
                        && numeral(key_bytes(after, keys[i])->0) == i
                &&& forall|i: int|
                    0 <= i < values.len() ==> (#[trigger] key_bytes(after, values[i])) is Some
                        && key_bytes(after, values[i])->0.len() > 0
                &&& Some(
                    values.map_values(|v: u64| key_bytes(after, v)->0).flatten(),
                ) == key_bytes(before.cells, bits)
            },
            Listed::Properties(o) => {
                &&& keys.map_values(|k: u64| key_bytes(after, k)->0) == own_keys(before.cells, o)
                &&& forall|i: int|
                    0 <= i < keys.len() ==> (#[trigger] key_bytes(after, keys[i])) is Some
                        && before.property(o, key_bytes(after, keys[i])->0) == Some(values[i])
            },
            Listed::Nothing => keys.len() == 0,
        },
{
    match listed(before.cells, bits) {
        Listed::Characters(c) => {
            characters_make_up_the_text(key_bytes(before.cells, bits)->0);
            assert forall|i: int| 0 <= i < keys.len() implies (#[trigger] key_bytes(
                after,
                keys[i],
            )) is Some && numeral(key_bytes(after, keys[i])->0) == i by {
                index_keys_are_numerals(i as nat);
            }
            assert forall|i: int| 0 <= i < values.len() implies (#[trigger] key_bytes(
                after,
                values[i],
            )) is Some && key_bytes(after, values[i])->0.len() > 0 by {
                assert(key_bytes(after, values[i]) == Some(c[i]));
            }
            assert(values.map_values(|v: u64| key_bytes(after, v)->0) =~= c) by {
                assert forall|i: int| 0 <= i < values.len() implies key_bytes(after, values[i])->0
                    == #[trigger] c[i] by {
                    assert(key_bytes(after, values[i]) == Some(c[i]));
                }
            }
        },
        Listed::Properties(o) => {
            let names = own_keys(before.cells, o);
            assert forall|i: int| 0 <= i < keys.len() implies (#[trigger] key_bytes(
                after,
                keys[i],
            )) is Some && before.property(o, key_bytes(after, keys[i])->0) == Some(values[i]) by {
                assert(key_bytes(after, keys[i]) == Some(names[i]));
                assert(Some(values[i]) == before.property(o, names[i]));
            }
            assert(keys.map_values(|k: u64| key_bytes(after, k)->0) =~= names) by {
                assert forall|i: int| 0 <= i < keys.len() implies key_bytes(after, keys[i])->0
                    == #[trigger] names[i] by {
                    assert(key_bytes(after, keys[i]) == Some(names[i]));
                }
            }
        },
        Listed::Nothing => {},
    }
}

} // verus!
