//! Fields beyond an object's inline slots.
//!
//! Such fields live in a vector per object, kept on the side and indexed by
//! the absolute field index. Positions that were never written, the inline
//! ones among them, hold undefined.

use std::collections::HashMap;
use vstd::prelude::*;

use crate::gc::{
    carries_address, every_reference_is_marked, lemma_in_either, scans_mark_the_references,
    visit_words, words_marks, GcEvent, GcLog, RuntimeRootVisitor, VisitorView,
};
use crate::heap::{object_at, Heap};
use crate::learned_inline::{learned_noted, note_learned_inline_fields, LearnedInlineTable};
use crate::rekey::{any_moved, enumerates, lemma_rekeyed_map_values, lemma_rekeyed_unmoved};
use crate::rekey::{rekey_table, rekeyed, table_keys};
use crate::value::TAG_UNDEFINED;

verus! {

broadcast use vstd::std_specs::hash::group_hash_axioms;

/// The fields by owner. `last` names the owner that was written last, or is
/// zero.
#[derive(Debug)]
pub struct OverflowTable {
    pub fields: HashMap<usize, Vec<u64>>,
    pub last: usize,
}

pub struct OverflowView {
    pub fields: Map<usize, Seq<u64>>,
    pub last: usize,
}

impl View for OverflowTable {
    type V = OverflowView;

    open spec fn view(&self) -> OverflowView {
        OverflowView { fields: words_by_owner(self.fields@), last: self.last }
    }
}

pub open spec fn words_by_owner(fields: Map<usize, Vec<u64>>) -> Map<usize, Seq<u64>> {
    fields.map_values(|v: Vec<u64>| v@)
}

/// `words`, padded with undefined to at least `len` words.
pub open spec fn padded(words: Seq<u64>, len: int) -> Seq<u64> {
    if words.len() >= len {
        words
    } else {
        Seq::new(
            len as nat,
            |i: int|
                if i < words.len() {
                    words[i]
                } else {
                    TAG_UNDEFINED
                },
        )
    }
}

/// `words` with `bits` at `index`.
pub open spec fn stored(words: Seq<u64>, index: int, bits: u64) -> Seq<u64> {
    padded(words, index + 1).update(index, bits)
}

impl OverflowView {
    /// The last written owner still has fields.
    pub open spec fn wf(self) -> bool {
        self.last != 0 ==> self.fields.contains_key(self.last)
    }

    /// The words of an owner.
    pub open spec fn words(self, owner: usize) -> Seq<u64> {
        if self.fields.contains_key(owner) {
            self.fields[owner]
        } else {
            Seq::empty()
        }
    }

    /// The field of an owner, unless it is undefined.
    pub open spec fn field(self, owner: usize, index: int) -> Option<u64> {
        let words = self.words(owner);
        if 0 <= index < words.len() && words[index] != TAG_UNDEFINED {
            Some(words[index])
        } else {
            None
        }
    }

    /// The table after a write.
    pub open spec fn written(self, owner: usize, index: int, bits: u64) -> OverflowView {
        OverflowView {
            fields: self.fields.insert(owner, stored(self.words(owner), index, bits)),
            last: owner,
        }
    }
}

impl OverflowTable {
    pub fn new() -> (r: OverflowTable)
        ensures
            r@ == (OverflowView { fields: Map::empty(), last: 0 }),
            r@.wf(),
    {
        let r = OverflowTable { fields: HashMap::new(), last: 0 };
        assert(r@.fields =~= Map::<usize, Seq<u64>>::empty());
        r
    }

    fn take(&mut self, owner: usize) -> (r: Option<Vec<u64>>)
        ensures
            r is Some <==> old(self)@.fields.contains_key(owner),
            r matches Some(v) ==> v@ == old(self)@.fields[owner],
            final(self)@.fields == old(self)@.fields.remove(owner),
            final(self).last == old(self).last,
    {
        let r = self.fields.remove(&owner);
        proof {
            assert(self@.fields =~= old(self)@.fields.remove(owner));
        }
        r
    }

    fn put(&mut self, owner: usize, words: Vec<u64>)
        ensures
            final(self)@.fields == old(self)@.fields.insert(owner, words@),
            final(self).last == old(self).last,
    {
        self.fields.insert(owner, words);
        proof {
            assert(self@.fields =~= old(self)@.fields.insert(owner, words@));
        }
    }
}

/// Pads `words` with undefined to at least `len` words.
fn pad(words: &mut Vec<u64>, len: usize)
    ensures
        final(words)@ == padded(old(words)@, len as int),
{
    if words.len() < len {
        words.resize(len, TAG_UNDEFINED);
        proof {
            assert forall|i: int| 0 <= i < len implies words@[i] == padded(
                old(words)@,
                len as int,
            )[i] by {
                if i < old(words)@.len() {
                    assert(words@.subrange(0, old(words)@.len() as int)[i] == old(words)@[i]);
                }
            }
            assert(words@ =~= padded(old(words)@, len as int));
        }
    }
}

/// The field at `field_index` of `obj_ptr`; `None` when it is undefined or was
/// never written.
pub fn overflow_get(table: &OverflowTable, obj_ptr: usize, field_index: usize) -> (r: Option<u64>)
    ensures
        r == table@.field(obj_ptr, field_index as int),
{
    match table.fields.get(&obj_ptr) {
        None => None,
        Some(v) => if field_index < v.len() && v[field_index] != TAG_UNDEFINED {
            Some(v[field_index])
        } else {
            None
        },
    }
}

/// Writes a field beyond the inline slots of `obj_ptr` and lets its class
/// learn the width.
pub fn overflow_set(
    table: &mut OverflowTable,
    heap: &Heap,
    learned: &mut LearnedInlineTable,
    gc: &mut GcLog,
    obj_ptr: usize,
    field_index: usize,
    vbits: u64,
)
    requires
        old(table)@.wf(),
        old(learned).wf(),
        object_at(heap@, obj_ptr) is Some,
        field_index < usize::MAX,
    ensures
        final(table)@.wf(),
        final(table)@ == old(table)@.written(obj_ptr, field_index as int, vbits),
        final(learned).wf(),
        final(learned).entries@ == learned_noted(
            old(learned).entries@,
            object_at(heap@, obj_ptr)->0.header.class_id,
            (field_index as u32).saturating_add(1),
        ),
        final(gc)@ == old(gc)@.push(
            GcEvent::LayoutNote { owner: obj_ptr, index: field_index, bits: vbits },
        ).push(
            GcEvent::ExternalSlotBarrier { owner: obj_ptr, index: field_index, bits: vbits },
        ),
{
    if let Some(o) = heap.object(obj_ptr) {
        note_learned_inline_fields(
            learned,
            o.header.class_id,
            (field_index as u32).saturating_add(1),
        );
    }
    let mut words: Vec<u64> = match table.take(obj_ptr) {
        Some(v) => v,
        None => Vec::new(),
    };
    assert(words@ == old(table)@.words(obj_ptr));
    pad(&mut words, field_index + 1);
    words.set(field_index, vbits);
    table.put(obj_ptr, words);
    table.last = obj_ptr;
    proof {
        assert(table@.fields =~= old(table)@.written(obj_ptr, field_index as int, vbits).fields);
    }
    gc.report(GcEvent::LayoutNote { owner: obj_ptr, index: field_index, bits: vbits });
    gc.report(GcEvent::ExternalSlotBarrier { owner: obj_ptr, index: field_index, bits: vbits });
}

/// The table once the fields of an owner are forgotten.
pub open spec fn owner_cleared(table: OverflowView, owner: usize) -> OverflowView {
    OverflowView {
        fields: table.fields.remove(owner),
        last: if table.last == owner {
            0
        } else {
            table.last
        },
    }
}

/// Forgets the fields of a freed object, lest an object that is allocated at
/// the same address inherits them.
pub fn clear_overflow_for_ptr(table: &mut OverflowTable, obj_ptr: usize)
    requires
        old(table)@.wf(),
    ensures
        final(table)@.wf(),
        final(table)@ == owner_cleared(old(table)@, obj_ptr),
{
    let _ = table.take(obj_ptr);
    if table.last == obj_ptr {
        table.last = 0;
    }
}

/// Has no object any fields beyond its inline slots?
pub fn overflow_fields_is_empty(table: &OverflowTable) -> (r: bool)
    ensures
        r == (table@.fields.dom() =~= Set::<usize>::empty()),
        r && table@.wf() ==> table@.last == 0,
{
    proof {
        assert(table@.fields.dom() =~= table.fields@.dom());
    }
    table.fields.is_empty()
}

/// `owner` with the fields of another object laid over: a defined moved field
/// wins, an undefined one leaves what is there.
pub open spec fn merged(owner: Seq<u64>, moved: Seq<u64>) -> Seq<u64> {
    let base = padded(owner, moved.len() as int);
    Seq::new(
        base.len(),
        |i: int|
            if i < moved.len() && moved[i] != TAG_UNDEFINED {
                moved[i]
            } else {
                base[i]
            },
    )
}

pub fn merge_overflow_fields(owner_fields: &mut Vec<u64>, moved_fields: Vec<u64>)
    ensures
        final(owner_fields)@ == merged(old(owner_fields)@, moved_fields@),
{
    pad(owner_fields, moved_fields.len());
    let ghost base = owner_fields@;
    let mut i: usize = 0;
    while i < moved_fields.len()
        invariant
            i <= moved_fields@.len(),
            moved_fields@.len() <= base.len(),
            owner_fields@.len() == base.len(),
            forall|j: int|
                0 <= j < base.len() ==> #[trigger] owner_fields@[j] == (if j < i
                    && moved_fields@[j] != TAG_UNDEFINED {
                    moved_fields@[j]
                } else {
                    base[j]
                }),
        decreases moved_fields@.len() - i,
    {
        let bits: u64 = moved_fields[i];
        if bits != TAG_UNDEFINED {
            owner_fields.set(i, bits);
        }
        i += 1;
    }
    assert(owner_fields@ =~= merged(old(owner_fields)@, moved_fields@));
}

/// The table after the object at `from` was moved to `to`.
pub open spec fn owner_moved(table: OverflowView, from: usize, to: usize) -> OverflowView {
    if from == 0 || to == 0 || from == to {
        table
    } else if !table.fields.contains_key(from) {
        OverflowView { last: 0, ..table }
    } else {
        let rest = table.fields.remove(from);
        let words = if rest.contains_key(to) {
            merged(rest[to], table.fields[from])
        } else {
            table.fields[from]
        };
        OverflowView { fields: rest.insert(to, words), last: 0 }
    }
}

/// Lets the fields of an object follow it.
pub fn overflow_fields_owner_moved(table: &mut OverflowTable, old_owner: usize, new_owner: usize)
    requires
        old(table)@.wf(),
    ensures
        final(table)@.wf(),
        final(table)@ == owner_moved(old(table)@, old_owner, new_owner),
{
    if old_owner == 0 || new_owner == 0 || old_owner == new_owner {
        return;
    }
    if let Some(moved) = table.take(old_owner) {
        match table.take(new_owner) {
            Some(mut words) => {
                merge_overflow_fields(&mut words, moved);
                table.put(new_owner, words);
            },
            None => {
                table.put(new_owner, moved);
            },
        }
    }
    table.last = 0;
    proof {
        assert(table@.fields =~= owner_moved(old(table)@, old_owner, new_owner).fields);
    }
}

/// The fields by owner once those of one owner were visited.
pub open spec fn fields_visited(table: OverflowView, owner: usize, visitor: VisitorView) -> Map<
    usize,
    Seq<u64>,
> {
    if owner != 0 && table.fields.contains_key(owner) {
        table.fields.insert(
            owner,
            table.words(owner).map_values(|bits: u64| visitor.moved_word(bits)),
        )
    } else {
        table.fields
    }
}

/// What the fields of an owner add to the marked values.
pub open spec fn field_marks(table: OverflowView, owner: usize) -> Seq<u64> {
    if owner != 0 {
        words_marks(table.words(owner))
    } else {
        Seq::empty()
    }
}

/// Visits every word of `owner` once, from the first on: no slot is left out,
/// whatever the layout mask says, and nothing else is visited.
pub fn visit_overflow_field_slots_mut(
    table: &mut OverflowTable,
    owner: usize,
    visitor: &mut RuntimeRootVisitor,
)
    requires
        old(table)@.wf(),
    ensures
        final(table)@.wf(),
        final(table)@.last == old(table)@.last,
        final(table)@.fields == fields_visited(old(table)@, owner, old(visitor)@),
        final(visitor)@ == old(visitor)@.marking(field_marks(old(table)@, owner)),
{
    if owner == 0 {
        return;
    }
    if let Some(mut words) = table.take(owner) {
        visit_words(&mut words, visitor);
        table.put(owner, words);
        proof {
            assert(table@.fields =~= old(table)@.fields.insert(owner, words@));
        }
    } else {
        proof {
            assert(table@.fields =~= old(table)@.fields);
            assert(visitor@.marked =~= visitor@.marked + Seq::<u64>::empty());
        }
    }
}

/// What the words of these owners, one owner after the other, add to the
/// marked values.
pub open spec fn owners_marks(fields: Map<usize, Seq<u64>>, order: Seq<usize>) -> Seq<u64>
    decreases order.len(),
{
    if order.len() == 0 {
        Seq::empty()
    } else {
        owners_marks(fields, order.drop_last()) + words_marks(fields[order.last()])
    }
}

/// The words of every owner as they read after a walk.
pub open spec fn words_moved(fields: Map<usize, Seq<u64>>, visitor: VisitorView) -> Map<
    usize,
    Seq<u64>,
> {
    fields.map_values(|words: Seq<u64>| words.map_values(|bits: u64| visitor.moved_word(bits)))
}

/// Walks the overflow fields as roots. Every word is visited. Owners that were
/// moved take their fields along; the owners are walked in the order in which
/// the table yields them.
pub fn scan_overflow_fields_roots_mut(table: &mut OverflowTable, visitor: &mut RuntimeRootVisitor)
    requires
        old(table)@.wf(),
    ensures
        final(table)@.wf(),
        exists|order: Seq<usize>|
            {
                &&& #[trigger] enumerates(order, old(table)@.fields.dom())
                &&& final(visitor)@ == old(visitor)@.marking(
                    owners_marks(old(table)@.fields, order),
                )
                &&& final(table)@.fields == rekeyed(
                    words_moved(old(table)@.fields, old(visitor)@),
                    order,
                    old(visitor)@,
                )
                &&& final(table)@.last == (if any_moved(order, old(visitor)@) {
                    0
                } else {
                    old(table)@.last
                })
            },
{
    let order = table_keys(&table.fields);
    let ghost before = table@.fields;
    let ghost start = visitor@;
    proof {
        assert(table.fields@.dom() =~= before.dom());
        assert(order@.take(0) =~= Seq::<usize>::empty());
        assert(start.marked + Seq::<u64>::empty() =~= start.marked);
    }
    let mut i: usize = 0;
    while i < order.len()
        invariant
            i <= order@.len(),
            enumerates(order@, before.dom()),
            table.last == old(table).last,
            table@.fields.dom() == before.dom(),
            visitor@ == start.marking(owners_marks(before, order@.take(i as int))),
            forall|j: int|
                0 <= j < i ==> #[trigger] table@.fields[order@[j]] == words_moved(
                    before,
                    start,
                )[order@[j]],
            forall|j: int|
                i <= j < order@.len() ==> #[trigger] table@.fields[order@[j]] == before[order@[j]],
        decreases order@.len() - i,
    {
        let owner: usize = order[i];
        assert(order@.to_set().contains(owner));
        if let Some(mut words) = table.take(owner) {
            visit_words(&mut words, visitor);
            table.put(owner, words);
        }
        proof {
            let so_far = owners_marks(before, order@.take(i as int));
            let here = words_marks(before[owner]);
            assert(order@.take(i + 1).drop_last() =~= order@.take(i as int));
            assert(start.marked + (so_far + here) =~= (start.marked + so_far) + here);
            assert(table@.fields.dom() =~= before.dom());
        }
        i += 1;
    }
    proof {
        assert(order@.take(i as int) =~= order@);
        assert forall|o: usize| #[trigger] before.contains_key(o) implies table@.fields[o]
            == words_moved(before, start)[o] by {
            assert(order@.to_set().contains(o));
            let j = choose|j: int| 0 <= j < order@.len() && order@[j] == o;
            assert(table@.fields[order@[j]] == words_moved(before, start)[order@[j]]);
        }
        assert(table@.fields =~= words_moved(before, start));
        lemma_rekeyed_map_values(
            table.fields@,
            order@,
            visitor@,
            |v: Vec<u64>| v@,
        );
        lemma_moved_unmarked(order@, words_moved(before, start), start, visitor@);
    }
    let moved_any = rekey_table(&mut table.fields, &order, visitor);
    if moved_any {
        table.last = 0;
    }
    proof {
        if !moved_any && old(table)@.last != 0 {
            lemma_rekeyed_unmoved(words_moved(before, start), order@, start);
        }
    }
}

/// Marking does not change where things are.
proof fn lemma_moved_unmarked<V>(
    order: Seq<usize>,
    table: Map<usize, V>,
    before: VisitorView,
    after: VisitorView,
)
    requires
        before.rewriting == after.rewriting,
        before.forwarding == after.forwarding,
    ensures
        forall|a: usize| before.moved(a) == after.moved(a),
        rekeyed(table, order, before) == rekeyed(table, order, after),
        any_moved(order, before) == any_moved(order, after),
    decreases order.len(),
{
    if order.len() > 0 {
        lemma_moved_unmarked(order.drop_last(), table, before, after);
        assert(any_moved(order, before) == any_moved(order, after)) by {
            if any_moved(order, before) {
                let i = choose|i: int|
                    0 <= i < order.len() && before.moved(#[trigger] order[i]) != order[i];
                assert(after.moved(order[i]) != order[i]);
            }
            if any_moved(order, after) {
                let i = choose|i: int|
                    0 <= i < order.len() && after.moved(#[trigger] order[i]) != order[i];
                assert(before.moved(order[i]) != order[i]);
            }
        }
    }
}

/// Marks what the overflow fields keep alive: the values to mark, in order.
pub fn scan_overflow_fields_roots(table: &mut OverflowTable) -> (marked: Vec<u64>)
    requires
        old(table)@.wf(),
    ensures
        final(table)@ == old(table)@,
        exists|order: Seq<usize>|
            {
                &&& #[trigger] enumerates(order, old(table)@.fields.dom())
                &&& marked@ == owners_marks(old(table)@.fields, order)
            },
{
    let mut visitor = RuntimeRootVisitor::for_copy();
    let ghost start = visitor@;
    scan_overflow_fields_roots_mut(table, &mut visitor);
    proof {
        let order = choose|order: Seq<usize>|
            {
                &&& #[trigger] enumerates(order, old(table)@.fields.dom())
                &&& visitor@ == start.marking(owners_marks(old(table)@.fields, order))
                &&& table@.fields == rekeyed(
                    words_moved(old(table)@.fields, start),
                    order,
                    start,
                )
                &&& table@.last == (if any_moved(order, start) {
                    0
                } else {
                    old(table)@.last
                })
            };
        lemma_rekeyed_unmoved(words_moved(old(table)@.fields, start), order, start);
        assert forall|o: usize| #[trigger] old(table)@.fields.contains_key(o) implies words_moved(
            old(table)@.fields,
            start,
        )[o] == old(table)@.fields[o] by {
            assert(words_moved(old(table)@.fields, start)[o] =~= old(table)@.fields[o]);
        }
        assert(table@.fields =~= old(table)@.fields);
        assert(visitor@.marked =~= owners_marks(old(table)@.fields, order));
    }
    visitor.marked
}

/// Makes `value_bits` the only field of `owner`, and `owner` the only object
/// with fields here.
pub fn test_seed_overflow_fields_root(
    table: &mut OverflowTable,
    gc: &mut GcLog,
    owner: usize,
    value_bits: u64,
)
    ensures
        final(table)@.wf(),
        final(table)@ == (OverflowView {
            fields: Map::<usize, Seq<u64>>::empty().insert(owner, seq![value_bits]),
            last: 0,
        }),
        final(gc)@ == old(gc)@.push(
            GcEvent::LayoutNote { owner, index: 0, bits: value_bits },
        ),
{
    table.fields.clear();
    proof {
        assert(table@.fields =~= Map::<usize, Seq<u64>>::empty());
    }
    let mut words: Vec<u64> = Vec::new();
    words.push(value_bits);
    assert(words@ =~= seq![value_bits]);
    table.put(owner, words);
    gc.report(GcEvent::LayoutNote { owner, index: 0, bits: value_bits });
    table.last = 0;
}

/// Number of words that are kept for `owner`.
pub fn debug_overflow_entry_len(table: &OverflowTable, owner: usize) -> (r: Option<usize>)
    ensures
        r is Some <==> table@.fields.contains_key(owner),
        r matches Some(n) ==> n == table@.fields[owner].len(),
{
    match table.fields.get(&owner) {
        None => None,
        Some(v) => Some(v.len()),
    }
}

/// Makes `values` the words of `owner`.
pub fn test_seed_overflow_fields_vec(table: &mut OverflowTable, owner: usize, values: Vec<u64>)
    ensures
        final(table)@.wf(),
        final(table)@ == (OverflowView {
            fields: old(table)@.fields.insert(owner, values@),
            last: 0,
        }),
{
    table.put(owner, values);
    table.last = 0;
}

/// Forgets all fields.
pub fn test_clear_overflow_fields_root(table: &mut OverflowTable)
    ensures
        final(table)@.wf(),
        final(table)@ == (OverflowView { fields: Map::empty(), last: 0 }),
{
    table.fields.clear();
    table.last = 0;
    proof {
        assert(table@.fields =~= Map::<usize, Seq<u64>>::empty());
    }
}

/// Some owner and its first word, zero if it has none; zeros when there is no
/// owner. Which owner is left open: it is the one that the table yields first.
pub fn test_overflow_fields_root(table: &OverflowTable) -> (r: (usize, u64))
    ensures
        table@.fields.dom() == Set::<usize>::empty() ==> r == (0usize, 0u64),
        table@.fields.dom() != Set::<usize>::empty() ==> {
            &&& table@.fields.contains_key(r.0)
            &&& r.1 == (if table@.fields[r.0].len() > 0 {
                table@.fields[r.0][0]
            } else {
                0
            })
        },
{
    let order = table_keys(&table.fields);
    proof {
        assert(table@.fields.dom() =~= table.fields@.dom());
    }
    if order.len() == 0 {
        proof {
            assert(table@.fields.dom() =~= Set::<usize>::empty());
        }
        return (0, 0);
    }
    let owner: usize = order[0];
    assert(order@.to_set().contains(owner));
    match table.fields.get(&owner) {
        None => (0, 0),
        Some(v) => if v.len() > 0 {
            (owner, v[0])
        } else {
            (owner, 0)
        },
    }
}

/// The word at `index` of `owner`; zero when there is none.
pub fn test_overflow_field_bits(table: &OverflowTable, owner: usize, index: usize) -> (r: u64)
    ensures
        r == (if index < table@.words(owner).len() {
            table@.words(owner)[index as int]
        } else {
            0
        }),
{
    match table.fields.get(&owner) {
        None => 0,
        Some(v) => if index < v.len() {
            v[index]
        } else {
            0
        },
    }
}

// ---------------------------------------------------------------------------
// Laws
// ---------------------------------------------------------------------------
/// A write is read back, undefined as an absent field; no other field of any
/// object changes.
pub proof fn written_field_reads_back(
    table: OverflowView,
    owner: usize,
    index: int,
    bits: u64,
    other: usize,
    j: int,
)
    requires
        0 <= index,
        0 <= j,
    ensures
        table.written(owner, index, bits).field(owner, index) == (if bits == TAG_UNDEFINED {
            None
        } else {
            Some(bits)
        }),
        other != owner || j != index ==> table.written(owner, index, bits).field(other, j)
            == table.field(other, j),
{
}

/// The fields of an object that moves are found at its new address and no
/// longer at the old one; where both had a field, the moved one counts. Other
/// objects keep theirs.
pub proof fn fields_follow_their_owner(
    table: OverflowView,
    from: usize,
    to: usize,
    other: usize,
    index: int,
)
    requires
        from != 0,
        to != 0,
        from != to,
        other != from,
        other != to,
        0 <= index,
    ensures
        ({
            let after = owner_moved(table, from, to);
            &&& after.field(to, index) == (if table.field(from, index) is Some {
                table.field(from, index)
            } else {
                table.field(to, index)
            })
            &&& after.field(from, index) is None
            &&& after.field(other, index) == table.field(other, index)
        }),
{
}

/// An object that is allocated where another was freed inherits no fields, and
/// other objects keep theirs.
pub proof fn cleared_owner_has_no_fields(
    table: OverflowView,
    owner: usize,
    other: usize,
    index: int,
)
    requires
        0 <= index,
    ensures
        ({
            let after = owner_cleared(table, owner);
            &&& after.field(owner, index) is None
            &&& !after.fields.contains_key(owner)
            &&& after.last != owner || owner == 0
            &&& other != owner ==> after.field(other, index) == table.field(other, index)
            &&& other != owner ==> after.fields.contains_key(other)
                == table.fields.contains_key(other)
            &&& table.wf() ==> after.wf()
        }),
{
}

/// A marking scan keeps everything alive that a field on the side refers to,
/// whatever the order in which the owners are walked.
pub proof fn every_overflow_reference_is_marked(
    fields: Map<usize, Seq<u64>>,
    order: Seq<usize>,
    owner: usize,
    index: int,
)
    requires
        order.contains(owner),
        0 <= index < fields[owner].len(),
        carries_address(fields[owner][index]),
    ensures
        owners_marks(fields, order).contains(fields[owner][index]),
    decreases order.len(),
{
    let bits = fields[owner][index];
    let rest = owners_marks(fields, order.drop_last());
    let here = words_marks(fields[order.last()]);
    if order.last() == owner {
        every_reference_is_marked(fields[owner], index);
    } else {
        let i = choose|i: int| 0 <= i < order.len() && order[i] == owner;
        assert(order.drop_last()[i] == owner);
        every_overflow_reference_is_marked(fields, order.drop_last(), owner, index);
    }
    lemma_in_either(rest, here, bits);
}

/// A write makes room for itself and no more: the words reach up to the written
/// one or as far as before, and what was never written is undefined. The owner
/// is the one that was written last.
pub proof fn writes_pad_with_undefined(
    table: OverflowView,
    owner: usize,
    index: int,
    bits: u64,
    j: int,
)
    requires
        0 <= index,
        0 <= j,
    ensures
        ({
            let before = table.words(owner);
            let after = table.written(owner, index, bits);
            let words = after.words(owner);
            &&& words.len() == (if index < before.len() {
                before.len() as int
            } else {
                index + 1
            })
            &&& words[index] == bits
            &&& j < words.len() && j != index ==> words[j] == (if j < before.len() {
                before[j]
            } else {
                0x7FFC_0000_0000_0001
            })
            &&& after.last == owner
            &&& forall|o: usize|
                o != owner ==> (#[trigger] after.fields.contains_key(o)
                    <==> table.fields.contains_key(o)) && after.fields[o] == table.fields[o]
        }),
{
}

/// Fields that are laid over others win where they are defined, and what reaches
/// farther of the two stays.
pub proof fn merged_fields_prefer_the_moved(owner: Seq<u64>, moved: Seq<u64>, i: int)
    requires
        0 <= i < owner.len() || 0 <= i < moved.len(),
    ensures
        merged(owner, moved).len() == (if owner.len() >= moved.len() {
            owner.len()
        } else {
            moved.len()
        }),
        merged(owner, moved)[i] == (if i < moved.len() && moved[i] != 0x7FFC_0000_0000_0001 {
            moved[i]
        } else if i < owner.len() {
            owner[i]
        } else {
            0x7FFC_0000_0000_0001
        }),
{
}

/// A scan marks nothing but what the fields of the owners refer to.
pub proof fn only_overflow_references_are_marked(
    fields: Map<usize, Seq<u64>>,
    order: Seq<usize>,
    bits: u64,
)
    requires
        owners_marks(fields, order).contains(bits),
    ensures
        carries_address(bits),
        exists|o: usize| #[trigger] order.contains(o) && fields[o].contains(bits),
    decreases order.len(),
{
    if order.len() > 0 {
        let before = owners_marks(fields, order.drop_last());
        let here = words_marks(fields[order.last()]);
        if before.contains(bits) {
            only_overflow_references_are_marked(fields, order.drop_last(), bits);
            let o = choose|o: usize| #[trigger]
                order.drop_last().contains(o) && fields[o].contains(bits);
            let k = choose|k: int| 0 <= k < order.drop_last().len() && order.drop_last()[k] == o;
            assert(order[k] == o);
            assert(order.contains(o));
        } else {
            let all = before + here;
            let k = choose|k: int| 0 <= k < all.len() && all[k] == bits;
            if k < before.len() {
                assert(before[k] == bits);
            }
            assert(here[k - before.len()] == bits);
            assert(here.contains(bits));
            scans_mark_the_references(fields[order.last()]);
            fields[order.last()].lemma_filter_contains_rev(
                |b: u64| carries_address(b),
                bits,
            );
            assert(order.contains(order[order.len() - 1]));
        }
    }
}

/// A visit to the fields of an owner reaches each of them once and in order, and
/// lets it follow what it refers to; those that refer to the heap are marked. No
/// other owner is visited, and zero owns nothing.
pub proof fn visits_reach_every_field_of_the_owner(
    table: OverflowView,
    owner: usize,
    visitor: VisitorView,
    other: usize,
    i: int,
)
    requires
        other != owner,
    ensures
        ({
            let after = fields_visited(table, owner, visitor);
            &&& after.dom() == table.fields.dom()
            &&& after[other] == table.fields[other]
            &&& owner != 0 && table.fields.contains_key(owner) ==> {
                &&& after[owner].len() == table.fields[owner].len()
                &&& 0 <= i < after[owner].len() ==> after[owner][i] == visitor.moved_word(
                    table.fields[owner][i],
                )
                &&& field_marks(table, owner) == table.fields[owner].filter(
                    |b: u64| carries_address(b),
                )
            }
            &&& owner == 0 || !table.fields.contains_key(owner) ==> after == table.fields
                && field_marks(table, owner).len() == 0
        }),
{
    assert(fields_visited(table, owner, visitor).dom() =~= table.fields.dom());
    scans_mark_the_references(table.words(owner));
}

/// A scan marks owner by owner, and of each owner the references among its
/// fields, in order and once each.
pub proof fn owners_are_marked_in_turn(fields: Map<usize, Seq<u64>>, order: Seq<usize>)
    ensures
        owners_marks(fields, order) == order.map_values(
            |o: usize| fields[o].filter(|b: u64| carries_address(b)),
        ).flatten(),
    decreases order.len(),
{
    let marks = order.map_values(|o: usize| fields[o].filter(|b: u64| carries_address(b)));
    marks.lemma_flatten_and_flatten_alt_are_equivalent();
    if order.len() > 0 {
        let rest = order.drop_last();
        let before = rest.map_values(|o: usize| fields[o].filter(|b: u64| carries_address(b)));
        owners_are_marked_in_turn(fields, rest);
        before.lemma_flatten_and_flatten_alt_are_equivalent();
        scans_mark_the_references(fields[order.last()]);
        assert(marks.drop_last() =~= before);
        assert(marks.last() == words_marks(fields[order.last()]));
    } else {
        assert(marks.flatten_alt() =~= Seq::<u64>::empty());
    }
}

/// A walk lets every field of every owner follow what it refers to.
pub proof fn walks_move_every_field(
    fields: Map<usize, Seq<u64>>,
    visitor: VisitorView,
    owner: usize,
    i: int,
)
    requires
        fields.contains_key(owner),
        0 <= i < fields[owner].len(),
    ensures
        words_moved(fields, visitor).dom() == fields.dom(),
        words_moved(fields, visitor)[owner].len() == fields[owner].len(),
        words_moved(fields, visitor)[owner][i] == visitor.moved_word(fields[owner][i]),
{
    assert(words_moved(fields, visitor).dom() =~= fields.dom());
}

} // verus!
