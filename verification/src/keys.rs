//! Property keys and the arrays that list them.

use std::collections::HashMap;
use vstd::prelude::*;
use vstd::slice::slice_subrange;

use crate::addr_class::is_above_handle_band;
use crate::heap::{
    array_at, fresh_header, frontier_after, string_at, with_gc, ArrayView, CellView, Cells,
    EntryView, GcHeader, Heap, HeapCell, StringHeader, STRING_HEADER_SIZE,
};
use crate::method_names::bytes_equal;
use crate::value::{
    payload, short_bytes, short_strings_are_packed_from_below, tagged,
    words_split_into_tag_and_payload, JSValue, SHORT_STRING_TAG, STRING_TAG, TAG_UNDEFINED,
};

verus! {

broadcast use vstd::std_specs::hash::group_hash_axioms;

// ---------------------------------------------------------------------------
// Arrays
// ---------------------------------------------------------------------------
/// The array that `addr` stands for now: an array that was outgrown names its
/// replacement. Zero when there is no array.
pub open spec fn resolved(cells: Cells, addr: usize) -> usize
    decreases usize::MAX - addr,
{
    match array_at(cells, addr) {
        None => 0,
        Some(a) => if a.forward == 0 {
            addr
        } else if addr < a.forward {
            resolved(cells, a.forward)
        } else {
            0
        },
    }
}

/// Follows the replacements of an array.
pub fn clean_arr_ptr(heap: &Heap, addr: usize) -> (r: usize)
    ensures
        r == resolved(heap@, addr),
        r != 0 ==> array_at(heap@, r) is Some && array_at(heap@, r)->0.forward == 0,
{
    let mut cur: usize = addr;
    loop
        invariant
            resolved(heap@, cur) == resolved(heap@, addr),
        decreases usize::MAX - cur,
    {
        match heap.array(cur) {
            None => {
                return 0;
            },
            Some(a) => {
                if a.forward == 0 {
                    return cur;
                }
                if a.forward <= cur {
                    return 0;
                }
                cur = a.forward;
            },
        }
    }
}

/// The elements that `keys` lists now. A length beyond the capacity is
/// ignored.
pub open spec fn dense_slots(cells: Cells, keys: usize) -> Seq<u64> {
    match array_at(cells, resolved(cells, keys)) {
        None => Seq::empty(),
        Some(a) => a.slots.take(dense_len(a)),
    }
}

pub open spec fn dense_len(a: ArrayView) -> int {
    if a.length <= a.capacity {
        a.length as int
    } else {
        a.capacity as int
    }
}

/// Resolves the array once and hands out its elements for direct indexing;
/// `None` when there is no array.
pub fn keys_array_dense_slots<'a>(heap: &'a Heap, keys: usize) -> (r: Option<&'a [u64]>)
    requires
        heap.wf(),
    ensures
        r is None <==> resolved(heap@, keys) == 0,
        r matches Some(s) ==> s@ == dense_slots(heap@, keys),
        r is None ==> dense_slots(heap@, keys).len() == 0,
        dense_slots(heap@, keys).len() <= u32::MAX,
{
    let arr = clean_arr_ptr(heap, keys);
    assert(!heap@.contains_key(0));
    match heap.array(arr) {
        None => None,
        Some(a) => {
            let len: u32 = if a.length <= a.capacity { a.length } else { a.capacity };
            assert(heap@.contains_key(arr));
            let s = slice_subrange(a.slots.as_slice(), 0, len as usize);
            assert(s@ =~= dense_slots(heap@, keys));
            Some(s)
        },
    }
}

/// Length of the array that `arr` stands for now; zero when there is none.
pub open spec fn array_length(cells: Cells, arr: usize) -> u32 {
    match array_at(cells, resolved(cells, arr)) {
        None => 0,
        Some(a) => a.length,
    }
}

pub fn js_array_length(heap: &Heap, arr: usize) -> (r: u32)
    ensures
        r == array_length(heap@, arr),
{
    let a = clean_arr_ptr(heap, arr);
    match heap.array(a) {
        None => 0,
        Some(a) => a.length,
    }
}

/// Element `index` of the array that `arr` stands for now; undefined outside.
pub open spec fn array_get(cells: Cells, arr: usize, index: u32) -> u64 {
    let slots = dense_slots(cells, arr);
    if index < slots.len() {
        slots[index as int]
    } else {
        TAG_UNDEFINED
    }
}

pub fn js_array_get(heap: &Heap, arr: usize, index: u32) -> (r: JSValue)
    requires
        heap.wf(),
    ensures
        r.bits == array_get(heap@, arr, index),
{
    match keys_array_dense_slots(heap, arr) {
        None => JSValue::undefined(),
        Some(s) => if (index as usize) < s.len() {
            JSValue::from_bits(s[index as usize])
        } else {
            JSValue::undefined()
        },
    }
}

/// The collector's headers have no say in what arrays and strings hold.
pub proof fn lemma_headers_do_not_matter(cells: Cells, at: usize, gc: GcHeader)
    requires
        cells.contains_key(at),
    ensures
        forall|a: usize| #[trigger] array_at(with_gc(cells, at, gc), a) == array_at(cells, a),
        forall|a: usize| #[trigger] string_at(with_gc(cells, at, gc), a) == string_at(cells, a),
        forall|a: usize| #[trigger] resolved(with_gc(cells, at, gc), a) == resolved(cells, a),
        forall|a: usize| #[trigger]
            dense_slots(with_gc(cells, at, gc), a) == dense_slots(cells, a),
        forall|a: usize, i: u32| #[trigger]
            array_get(with_gc(cells, at, gc), a, i) == array_get(cells, a, i),
        forall|a: usize| #[trigger]
            array_length(with_gc(cells, at, gc), a) == array_length(cells, a),
        forall|b: u64| #[trigger] key_bytes(with_gc(cells, at, gc), b) == key_bytes(cells, b),
{
    let after = with_gc(cells, at, gc);
    assert forall|a: usize| #[trigger] array_at(after, a) == array_at(cells, a) by {}
    assert forall|a: usize| #[trigger] resolved(after, a) == resolved(cells, a) by {
        lemma_same_arrays_resolve(cells, after, a);
    }
}

/// Where the same arrays are at the same addresses, they resolve the same.
pub proof fn lemma_same_arrays_resolve(cells: Cells, after: Cells, addr: usize)
    requires
        forall|a: usize| #[trigger] array_at(after, a) == array_at(cells, a),
    ensures
        resolved(after, addr) == resolved(cells, addr),
    decreases usize::MAX - addr,
{
    if let Some(a) = array_at(cells, addr) {
        if a.forward != 0 && addr < a.forward {
            lemma_same_arrays_resolve(cells, after, a.forward);
        }
    }
}

// ---------------------------------------------------------------------------
// Keys
// ---------------------------------------------------------------------------
/// The bytes of a value that is a string, heap or short.
pub open spec fn key_bytes(cells: Cells, bits: u64) -> Option<Seq<u8>> {
    if tagged(bits, STRING_TAG) {
        string_at(cells, payload(bits))
    } else if tagged(bits, SHORT_STRING_TAG) {
        Some(short_bytes(bits))
    } else {
        None
    }
}

/// The bytes of a string value. Those of a short string are unpacked into
/// `scratch`.
pub fn js_string_key_bytes<'a>(heap: &'a Heap, v: JSValue, scratch: &'a mut Vec<u8>) -> (r: Option<
    &'a [u8],
>)
    ensures
        r is Some <==> key_bytes(heap@, v.bits) is Some,
        r matches Some(s) ==> key_bytes(heap@, v.bits) == Some(s@),
{
    if v.is_string() {
        match heap.string(v.as_pointer()) {
            None => None,
            Some(s) => Some(s.bytes.as_slice()),
        }
    } else if v.is_short_string() {
        *scratch = v.short_string_bytes();
        Some(scratch.as_slice())
    } else {
        None
    }
}

/// Does the value spell the same key as the heap string at `key`?
pub open spec fn key_matches(cells: Cells, stored: u64, key: usize) -> bool {
    string_at(cells, key) is Some && key_bytes(cells, stored) == string_at(cells, key)
}

pub fn js_string_key_matches(heap: &Heap, stored: JSValue, key: usize) -> (r: bool)
    ensures
        r == key_matches(heap@, stored.bits, key),
{
    match heap.string(key) {
        None => false,
        Some(k) => {
            let mut scratch: Vec<u8> = Vec::new();
            match js_string_key_bytes(heap, stored, &mut scratch) {
                None => false,
                Some(s) => bytes_equal(s, k.bytes.as_slice()),
            }
        },
    }
}

/// Are the two addresses heap strings with the same bytes?
pub open spec fn strings_equal(cells: Cells, a: usize, b: usize) -> bool {
    string_at(cells, a) is Some && string_at(cells, a) == string_at(cells, b)
}

pub fn js_string_equals(heap: &Heap, a: usize, b: usize) -> (r: bool)
    ensures
        r == strings_equal(heap@, a, b),
{
    match heap.string(a) {
        None => false,
        Some(x) => match heap.string(b) {
            None => false,
            Some(y) => bytes_equal(x.bytes.as_slice(), y.bytes.as_slice()),
        },
    }
}

// ---------------------------------------------------------------------------
// Hashing
// ---------------------------------------------------------------------------
pub const FNV_OFFSET: u64 = 0xcbf29ce484222325;

pub const FNV_PRIME: u64 = 0x100000001b3;

/// FNV-1a: each byte is mixed in with an exclusive or, then the hash is
/// multiplied by the prime modulo 2^64.
pub open spec fn fnv1a(bytes: Seq<u8>) -> u64
    decreases bytes.len(),
{
    if bytes.len() == 0 {
        FNV_OFFSET
    } else {
        (fnv1a(bytes.drop_last()) ^ (bytes.last() as u64)).wrapping_mul(FNV_PRIME)
    }
}

/// Content hash of a key. All key indexes and the intern table use it.
pub fn key_bytes_hash(name: &[u8]) -> (h: u64)
    ensures
        h == fnv1a(name@),
{
    let mut h: u64 = FNV_OFFSET;
    let mut i: usize = 0;
    while i < name.len()
        invariant
            i <= name@.len(),
            h == fnv1a(name@.take(i as int)),
        decreases name@.len() - i,
    {
        h = (h ^ (name[i] as u64)).wrapping_mul(FNV_PRIME);
        i += 1;
        assert(name@.take(i as int).drop_last() =~= name@.take(i - 1));
    }
    assert(name@.take(i as int) =~= name@);
    h
}

/// Content hash of a heap string.
fn key_content_hash_impl(key: &StringHeader) -> (h: u64)
    ensures
        h == fnv1a(key.bytes@),
{
    key_bytes_hash(key.bytes.as_slice())
}

pub fn key_content_hash(key: &StringHeader) -> (h: u64)
    ensures
        h == fnv1a(key.bytes@),
{
    key_content_hash_impl(key)
}

/// The content hash under the name that compiled code calls.
pub fn perry_key_content_hash(key: &StringHeader) -> (h: u64)
    ensures
        h == fnv1a(key.bytes@),
{
    key_content_hash_impl(key)
}

// ---------------------------------------------------------------------------
// Interning
// ---------------------------------------------------------------------------
/// Addresses of the canonical strings, bucketed by content hash.
pub struct InternTable {
    pub buckets: HashMap<u64, Vec<usize>>,
}

/// The first address of a bucket, from `i` on, that holds a string with these
/// bytes.
pub open spec fn find_interned(
    cells: Cells,
    bucket: Seq<usize>,
    bytes: Seq<u8>,
    i: int,
) -> Option<usize>
    decreases bucket.len() - i,
{
    if i >= bucket.len() {
        None
    } else if string_at(cells, bucket[i]) == Some(bytes) {
        Some(bucket[i])
    } else {
        find_interned(cells, bucket, bytes, i + 1)
    }
}

impl View for InternTable {
    type V = Map<u64, Seq<usize>>;

    open spec fn view(&self) -> Map<u64, Seq<usize>> {
        self.buckets@.map_values(|b: Vec<usize>| b@)
    }
}

/// The addresses filed under a hash.
pub open spec fn bucket_of(table: Map<u64, Seq<usize>>, hash: u64) -> Seq<usize> {
    if table.contains_key(hash) {
        table[hash]
    } else {
        Seq::empty()
    }
}

/// The canonical string filed under `hash` with these bytes.
pub open spec fn interned_as(
    cells: Cells,
    table: Map<u64, Seq<usize>>,
    bytes: Seq<u8>,
    hash: u64,
) -> Option<usize> {
    find_interned(cells, bucket_of(table, hash), bytes, 0)
}

impl InternTable {
    pub fn new() -> (r: InternTable)
        ensures
            r@ == Map::<u64, Seq<usize>>::empty(),
    {
        let r = InternTable { buckets: HashMap::new() };
        assert(r@ =~= Map::<u64, Seq<usize>>::empty());
        r
    }

    fn find(&self, heap: &Heap, key: &[u8], hash: u64) -> (r: Option<usize>)
        ensures
            r == interned_as(heap@, self@, key@, hash),
    {
        match self.buckets.get(&hash) {
            None => None,
            Some(b) => {
                let mut i: usize = 0;
                while i < b.len()
                    invariant
                        i <= b@.len(),
                        b@ == bucket_of(self@, hash),
                        find_interned(heap@, b@, key@, i as int) == find_interned(
                            heap@,
                            b@,
                            key@,
                            0,
                        ),
                    decreases b@.len() - i,
                {
                    if let Some(s) = heap.string(b[i]) {
                        if bytes_equal(s.bytes.as_slice(), key) {
                            return Some(b[i]);
                        }
                    }
                    i += 1;
                }
                None
            },
        }
    }

    fn add(&mut self, addr: usize, hash: u64)
        ensures
            final(self)@ == old(self)@.insert(hash, bucket_of(old(self)@, hash).push(addr)),
    {
        let mut b: Vec<usize> = match self.buckets.remove(&hash) {
            Some(b) => b,
            None => Vec::new(),
        };
        let ghost before = b@;
        b.push(addr);
        self.buckets.insert(hash, b);
        proof {
            assert(before == bucket_of(old(self)@, hash));
            assert(self@ =~= old(self)@.insert(hash, bucket_of(old(self)@, hash).push(addr)));
        }
    }
}

/// A canonical string has the bytes it was looked up by.
pub proof fn lemma_found_interned(cells: Cells, bucket: Seq<usize>, bytes: Seq<u8>, i: int)
    ensures
        find_interned(cells, bucket, bytes, i) matches Some(a) ==> string_at(cells, a) == Some(
            bytes,
        ),
    decreases bucket.len() - i,
{
    if i < bucket.len() {
        lemma_found_interned(cells, bucket, bytes, i + 1);
    }
}

/// The canonical string with the bytes of the string at `key`: the one that
/// was interned first under `hash`, else `key` itself, which is interned now.
pub fn js_string_intern(heap: &mut Heap, table: &mut InternTable, key: usize, hash: u64) -> (r:
    usize)
    requires
        old(heap).wf(),
        string_at(old(heap)@, key) is Some,
    ensures
        final(heap).wf(),
        final(heap).frontier() == old(heap).frontier(),
        ({
            let bytes = string_at(old(heap)@, key)->0;
            match interned_as(old(heap)@, old(table)@, bytes, hash) {
                Some(a) => {
                    &&& r == a
                    &&& final(heap)@ == old(heap)@
                    &&& final(table)@ == old(table)@
                },
                None => {
                    &&& r == key
                    &&& final(heap)@ == with_gc(
                        old(heap)@,
                        key,
                        (GcHeader { interned: true, ..old(heap)@[key].gc }),
                    )
                    &&& final(table)@ == old(table)@.insert(
                        hash,
                        bucket_of(old(table)@, hash).push(key),
                    )
                },
            }
        }),
{
    let found = match heap.string(key) {
        None => None,
        Some(s) => table.find(heap, s.bytes.as_slice(), hash),
    };
    match found {
        Some(a) => a,
        None => {
            if let Some(gc) = heap.gc_header(key) {
                heap.set_gc_header(key, GcHeader { interned: true, ..gc });
            }
            table.add(key, hash);
            key
        },
    }
}

/// Allocates a heap string.
pub fn js_string_from_bytes(heap: &mut Heap, bytes: &[u8]) -> (addr: usize)
    requires
        old(heap).wf(),
        bytes@.len() + 64 <= old(heap).room(),
    ensures
        final(heap).wf(),
        addr == old(heap).next_cell(),
        !old(heap)@.contains_key(addr),
        final(heap)@ == old(heap)@.insert(addr, fresh_string(bytes@)),
        final(heap).frontier() == frontier_after(
            old(heap).frontier(),
            CellView::String(bytes@),
        ),
        final(heap).room() >= old(heap).room() - bytes@.len() - 64,
{
    let mut copy: Vec<u8> = Vec::new();
    let mut i: usize = 0;
    while i < bytes.len()
        invariant
            i <= bytes@.len(),
            copy@ =~= bytes@.take(i as int),
        decreases bytes@.len() - i,
    {
        copy.push(bytes[i]);
        i += 1;
    }
    assert(copy@ =~= bytes@);
    let size: usize = ((STRING_HEADER_SIZE + bytes.len() + 7) / 8) * 8;
    heap.allocate(HeapCell::String(StringHeader { bytes: copy }), size)
}

/// A string cell that was just allocated.
pub open spec fn fresh_string(bytes: Seq<u8>) -> EntryView {
    EntryView { gc: fresh_header(), cell: CellView::String(bytes) }
}

/// The address of the canonical string for the string at `key`, which becomes
/// it if there is none.
pub open spec fn interned_addr(cells: Cells, table: Map<u64, Seq<usize>>, key: usize) -> usize {
    let bytes = string_at(cells, key)->0;
    if cells[key].gc.interned {
        key
    } else {
        match interned_as(cells, table, bytes, fnv1a(bytes)) {
            Some(a) => a,
            None => key,
        }
    }
}

/// The canonical string for the string at `key` has its bytes.
pub proof fn lemma_interned_spells(cells: Cells, table: Map<u64, Seq<usize>>, key: usize)
    requires
        string_at(cells, key) is Some,
    ensures
        string_at(cells, interned_addr(cells, table, key)) == string_at(cells, key),
{
    let bytes = string_at(cells, key)->0;
    lemma_found_interned(cells, bucket_of(table, fnv1a(bytes)), bytes, 0);
}

/// The table of canonical strings once the string at `key` has one.
pub open spec fn with_interned(
    cells: Cells,
    table: Map<u64, Seq<usize>>,
    key: usize,
) -> Map<u64, Seq<usize>> {
    let bytes = string_at(cells, key)->0;
    let hash = fnv1a(bytes);
    if string_at(cells, key) is None || cells[key].gc.interned || interned_as(
        cells,
        table,
        bytes,
        hash,
    ) is Some {
        table
    } else {
        table.insert(hash, bucket_of(table, hash).push(key))
    }
}

/// The cells once the string at `key` has a canonical one: a string that
/// becomes it is marked.
pub open spec fn interned_cells(
    cells: Cells,
    table: Map<u64, Seq<usize>>,
    key: usize,
) -> Cells {
    let bytes = string_at(cells, key)->0;
    if string_at(cells, key) is None || cells[key].gc.interned || interned_as(
        cells,
        table,
        bytes,
        fnv1a(bytes),
    ) is Some {
        cells
    } else {
        with_gc(cells, key, GcHeader { interned: true, ..cells[key].gc })
    }
}

/// The identity under which caches file a key: the address of its canonical
/// string. Zero for a key that is no heap string.
pub fn interned_key_ptr(heap: &mut Heap, table: &mut InternTable, key: usize) -> (r: usize)
    requires
        old(heap).wf(),
    ensures
        final(heap).wf(),
        final(heap).frontier() == old(heap).frontier(),
        r == (if string_at(old(heap)@, key) is Some {
            interned_addr(old(heap)@, old(table)@, key)
        } else {
            0
        }),
        final(heap)@ == interned_cells(old(heap)@, old(table)@, key),
        final(table)@ == with_interned(old(heap)@, old(table)@, key),
{
    if key == 0 || !is_above_handle_band(key) {
        proof {
            assert(!heap@.contains_key(key));
        }
        return 0;
    }
    let hash = match heap.string(key) {
        None => {
            return 0;
        },
        Some(s) => key_content_hash(s),
    };
    let already = match heap.gc_header(key) {
        None => false,
        Some(gc) => gc.interned,
    };
    if already {
        key
    } else {
        js_string_intern(heap, table, key, hash)
    }
}

// ---------------------------------------------------------------------------
// Laws
// ---------------------------------------------------------------------------
/// An array that was outgrown stands for its replacement, however often that was
/// outgrown in turn: length and elements are those of the array at the end,
/// which is in force.
pub proof fn outgrown_arrays_stand_for_their_replacement(cells: Cells, addr: usize, index: u32)
    ensures
        array_at(cells, addr) is None ==> resolved(cells, addr) == 0,
        array_at(cells, addr) is Some && array_at(cells, addr)->0.forward == 0 ==> resolved(
            cells,
            addr,
        ) == addr,
        array_at(cells, addr) is Some && addr < array_at(cells, addr)->0.forward ==> {
            let to = array_at(cells, addr)->0.forward;
            &&& resolved(cells, addr) == resolved(cells, to)
            &&& array_length(cells, addr) == array_length(cells, to)
            &&& dense_slots(cells, addr) == dense_slots(cells, to)
            &&& array_get(cells, addr, index) == array_get(cells, to, index)
        },
        resolved(cells, addr) != 0 ==> array_at(cells, resolved(cells, addr)) is Some && array_at(
            cells,
            resolved(cells, addr),
        )->0.forward == 0,
    decreases usize::MAX - addr,
{
    if array_at(cells, addr) is Some && addr < array_at(cells, addr)->0.forward {
        outgrown_arrays_stand_for_their_replacement(
            cells,
            array_at(cells, addr)->0.forward,
            index,
        );
    }
}

/// The elements of an array in force are read by their index, and beyond the
/// last one there is undefined.
pub proof fn elements_are_read_by_index(cells: Cells, addr: usize, index: u32)
    requires
        !cells.contains_key(0),
    ensures
        array_at(cells, addr) is None ==> array_length(cells, addr) == 0 && array_get(
            cells,
            addr,
            index,
        ) == 0x7FFC_0000_0000_0001,
        array_at(cells, addr) matches Some(a) ==> {
            a.forward == 0 && a.slots.len() == a.capacity && a.length <= a.capacity ==> {
                &&& array_length(cells, addr) == a.length
                &&& dense_slots(cells, addr).len() == a.length
                &&& array_get(cells, addr, index) == (if index < a.length {
                    a.slots[index as int]
                } else {
                    0x7FFC_0000_0000_0001
                })
            }
        },
{
}

/// A string value has its bytes wherever they are: a heap string those of its
/// cell, a short string its own, at most five. Nothing else is a string.
pub proof fn string_values_have_bytes(cells: Cells, bits: u64, addr: usize)
    requires
        addr < 0x0001_0000_0000_0000,
    ensures
        key_bytes(cells, (0x7FFF_0000_0000_0000 + addr) as u64) == string_at(cells, addr),
        bits / 0x0001_0000_0000_0000 == 0x7FF9 ==> key_bytes(cells, bits) == Some(
            short_bytes(bits),
        ) && short_bytes(bits).len() <= 5,
        bits / 0x0001_0000_0000_0000 != 0x7FF9 && bits / 0x0001_0000_0000_0000 != 0x7FFF
            ==> key_bytes(cells, bits) is None,
{
    let string = (0x7FFF_0000_0000_0000 + addr) as u64;
    words_split_into_tag_and_payload(string, addr);
    words_split_into_tag_and_payload(bits, addr);
    short_strings_are_packed_from_below(bits, 0);
    assert(string % 0x0001_0000_0000_0000 == addr);
}

/// A value spells the key at an address exactly if both are strings of the same
/// bytes, short or not; and two heap strings are equal exactly if their bytes
/// are.
pub proof fn keys_match_by_their_bytes(cells: Cells, stored: u64, a: usize, b: usize)
    requires
        a < 0x0001_0000_0000_0000,
        string_at(cells, a) is Some,
        string_at(cells, b) is Some,
    ensures
        key_matches(cells, (0x7FFF_0000_0000_0000 + a) as u64, b) <==> string_at(cells, a)
            == string_at(cells, b),
        strings_equal(cells, a, b) <==> string_at(cells, a) == string_at(cells, b),
        bits_are_short(stored) ==> (key_matches(cells, stored, b) <==> short_bytes(stored)
            == string_at(cells, b)->0),
{
    string_values_have_bytes(cells, stored, a);
}

/// Is a word a short string?
pub open spec fn bits_are_short(bits: u64) -> bool {
    bits / 0x0001_0000_0000_0000 == 0x7FF9
}

/// The content hash is FNV-1a of 64 bits: it begins at the offset basis, and each
/// byte is mixed in and multiplied by the prime.
pub proof fn content_hash_is_fnv1a(bytes: Seq<u8>, b: u8)
    ensures
        fnv1a(Seq::empty()) == 0xcbf29ce484222325u64,
        fnv1a(bytes.push(b)) == ((fnv1a(bytes) ^ (b as u64)) * 0x100000001b3)
            % 0x1_0000_0000_0000_0000,
{
    assert(bytes.push(b).drop_last() =~= bytes);
}

/// Keys are interned by their bytes: once a string has a canonical one, every
/// other string of the same bytes has the same, unless it is marked as canonical
/// itself. The canonical string has those bytes.
pub proof fn equal_keys_are_interned_alike(
    cells: Cells,
    table: Map<u64, Seq<usize>>,
    a: usize,
    b: usize,
)
    requires
        string_at(cells, a) is Some,
        string_at(cells, b) == string_at(cells, a),
        !cells[a].gc.interned,
        !cells[b].gc.interned,
        a != b,
    ensures
        ({
            let canonical = interned_addr(cells, table, a);
            let after = interned_cells(cells, table, a);
            let filed = with_interned(cells, table, a);
            &&& string_at(after, canonical) == string_at(cells, a)
            &&& interned_addr(after, filed, a) == canonical
            &&& interned_addr(after, filed, b) == canonical
            &&& interned_cells(after, filed, b) == after
            &&& with_interned(after, filed, b) == filed
            &&& forall|c: usize| #[trigger] string_at(after, c) == string_at(cells, c)
        }),
{
    let bytes = string_at(cells, a)->0;
    let hash = fnv1a(bytes);
    let bucket = bucket_of(table, hash);
    let after = interned_cells(cells, table, a);
    lemma_interned_spells(cells, table, a);
    assert forall|c: usize| #[trigger] string_at(after, c) == string_at(cells, c) by {}
    lemma_same_bucket(cells, after, bucket, bytes, 0);
    if interned_as(cells, table, bytes, hash) is None {
        lemma_found_last(after, bucket, bytes, a, 0);
        assert(bucket_of(with_interned(cells, table, a), hash) == bucket.push(a));
    }
}

proof fn lemma_same_bucket(cells: Cells, after: Cells, bucket: Seq<usize>, bytes: Seq<u8>, i: int)
    requires
        forall|c: usize| #[trigger] string_at(after, c) == string_at(cells, c),
    ensures
        find_interned(after, bucket, bytes, i) == find_interned(cells, bucket, bytes, i),
    decreases bucket.len() - i,
{
    if i < bucket.len() {
        lemma_same_bucket(cells, after, bucket, bytes, i + 1);
    }
}

proof fn lemma_found_last(cells: Cells, bucket: Seq<usize>, bytes: Seq<u8>, last: usize, i: int)
    requires
        0 <= i <= bucket.len(),
        find_interned(cells, bucket, bytes, i) is None,
        string_at(cells, last) == Some(bytes),
    ensures
        find_interned(cells, bucket.push(last), bytes, i) == Some(last),
    decreases bucket.len() - i,
{
    if i < bucket.len() {
        lemma_found_last(cells, bucket, bytes, last, i + 1);
    }
}

} // verus!
