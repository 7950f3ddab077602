//! Learned inline sizes of classes.
//!
//! A dynamic construct cannot see the constructor's body, so the first
//! instances of a class may outgrow their inline slots. The widest field index
//! seen is remembered per class, and later instances are allocated that wide.

use vstd::arithmetic::div_mod::lemma_mod_mod;
use vstd::prelude::*;

use crate::method_names::{ascii, key_is};

verus! {

/// Widths beyond this are not learned: one pathological writer must not
/// inflate every later instance.
pub const LEARNED_INLINE_MAX_FIELDS: u32 = 64;

pub const LEARNED_INLINE_TABLE_SIZE: usize = 1024;

pub const LEARNED_INLINE_MIX: usize = 0x9E37_79B1;

/// The widest instance of a class. Class id zero marks a free entry.
#[derive(Clone, Copy, PartialEq, Eq, Structural, Debug)]
pub struct LearnedEntry {
    pub class_id: u32,
    pub fields: u32,
}

/// Direct-mapped table of learned widths.
#[derive(Debug)]
pub struct LearnedInlineTable {
    pub entries: Vec<LearnedEntry>,
}

/// The entry that a class maps to.
pub open spec fn learned_slot(class_id: u32) -> int {
    (class_id * LEARNED_INLINE_MIX) % (LEARNED_INLINE_TABLE_SIZE as int)
}

/// The table after a class was seen to need `needed_fields` fields. Another
/// class in the same entry is forgotten.
pub open spec fn learned_noted(
    table: Seq<LearnedEntry>,
    class_id: u32,
    needed_fields: u32,
) -> Seq<LearnedEntry> {
    let slot = learned_slot(class_id);
    if class_id == 0 || needed_fields > LEARNED_INLINE_MAX_FIELDS {
        table
    } else if table[slot].class_id != class_id || table[slot].fields < needed_fields {
        table.update(slot, LearnedEntry { class_id, fields: needed_fields })
    } else {
        table
    }
}

/// The learned width of a class; zero when nothing was learned.
pub open spec fn learned_count(table: Seq<LearnedEntry>, class_id: u32) -> u32 {
    let slot = learned_slot(class_id);
    if class_id != 0 && table[slot].class_id == class_id {
        table[slot].fields
    } else {
        0
    }
}

/// A table that has learned nothing.
pub open spec fn nothing_learned() -> Seq<LearnedEntry> {
    Seq::new(LEARNED_INLINE_TABLE_SIZE as nat, |i: int| LearnedEntry { class_id: 0, fields: 0 })
}

fn table_slot(class_id: u32) -> (slot: usize)
    ensures
        slot == learned_slot(class_id),
        slot < LEARNED_INLINE_TABLE_SIZE,
{
    let mixed: usize = (class_id as usize).wrapping_mul(LEARNED_INLINE_MIX);
    proof {
        let full: int = class_id * LEARNED_INLINE_MIX;
        assert(full >= 0) by (nonlinear_arith)
            requires
                full == class_id * LEARNED_INLINE_MIX,
        ;
        assert(0x1_0000_0000int == 1024 * 0x40_0000int);
        assert(0x1_0000_0000_0000_0000int == 1024 * 0x40_0000_0000_0000int);
        lemma_mod_mod(full, 1024, 0x40_0000);
        lemma_mod_mod(full, 1024, 0x40_0000_0000_0000);
    }
    mixed % LEARNED_INLINE_TABLE_SIZE
}

impl LearnedInlineTable {
    pub open spec fn wf(self) -> bool {
        &&& self.entries@.len() == LEARNED_INLINE_TABLE_SIZE
        &&& forall|i: int|
            0 <= i < self.entries@.len() ==> (#[trigger] self.entries@[i]).fields
                <= LEARNED_INLINE_MAX_FIELDS
    }

    pub fn new() -> (r: LearnedInlineTable)
        ensures
            r.wf(),
            r.entries@ == nothing_learned(),
            forall|class_id: u32| #[trigger] learned_count(r.entries@, class_id) == 0,
    {
        let r = LearnedInlineTable { entries: vec![
                LearnedEntry { class_id: 0, fields: 0 };
                LEARNED_INLINE_TABLE_SIZE
            ] };
        assert(r.entries@ =~= nothing_learned());
        assert forall|class_id: u32| #[trigger] learned_count(r.entries@, class_id) == 0 by {
            let slot = learned_slot(class_id);
            assert(0 <= slot < r.entries@.len());
            assert(r.entries@[slot] == (LearnedEntry { class_id: 0, fields: 0 }));
        }
        r
    }
}

/// Remembers that an instance of `class_id` needed `needed_fields` fields.
pub fn note_learned_inline_fields(
    table: &mut LearnedInlineTable,
    class_id: u32,
    needed_fields: u32,
)
    requires
        old(table).wf(),
    ensures
        final(table).wf(),
        final(table).entries@ == learned_noted(old(table).entries@, class_id, needed_fields),
{
    if class_id == 0 || needed_fields > LEARNED_INLINE_MAX_FIELDS {
        return;
    }
    let slot = table_slot(class_id);
    let e = table.entries[slot];
    if e.class_id != class_id || e.fields < needed_fields {
        table.entries.set(slot, LearnedEntry { class_id, fields: needed_fields });
    }
}

/// Does the setting leave the table in use? Only a value that says no does not.
pub open spec fn switched_on(setting: Option<Seq<u8>>) -> bool {
    !(setting is Some && (setting->0 == ascii("0") || setting->0 == ascii("off") || setting->0
        == ascii("false")))
}

/// Is the table consulted? `setting` is the value of the environment's
/// `PERRY_LEARNED_INLINE`, which can switch it off.
pub fn learned_inline_enabled(setting: Option<&[u8]>) -> (r: bool)
    ensures
        r == switched_on(
            match setting {
                Some(s) => Some(s@),
                None => None,
            },
        ),
{
    proof {
        reveal_strlit("0");
        reveal_strlit("off");
        reveal_strlit("false");
    }
    match setting {
        None => true,
        Some(s) => !(key_is(s, "0") || key_is(s, "off") || key_is(s, "false")),
    }
}

/// The width that a new instance of a class gets.
pub open spec fn learned_width(table: Seq<LearnedEntry>, enabled: bool, class_id: u32) -> u32 {
    if enabled {
        learned_count(table, class_id)
    } else {
        0
    }
}

/// Inline width for a new instance of `class_id`; zero leaves the caller's
/// default.
pub fn learned_inline_field_count(
    table: &LearnedInlineTable,
    enabled: bool,
    class_id: u32,
) -> (r: u32)
    requires
        table.wf(),
    ensures
        r == learned_width(table.entries@, enabled, class_id),
        r <= LEARNED_INLINE_MAX_FIELDS,
{
    if !enabled || class_id == 0 {
        return 0;
    }
    let slot = table_slot(class_id);
    let e = table.entries[slot];
    if e.class_id == class_id {
        e.fields
    } else {
        0
    }
}

/// What was noted is learned: right after a class was seen with a width that
/// can be learned, its learned width covers it, and it never shrinks.
pub proof fn noted_width_is_learned(
    table: LearnedInlineTable,
    class_id: u32,
    needed_fields: u32,
)
    requires
        table.wf(),
        class_id != 0,
        needed_fields <= LEARNED_INLINE_MAX_FIELDS,
    ensures
        learned_count(learned_noted(table.entries@, class_id, needed_fields), class_id)
            >= needed_fields,
        learned_count(learned_noted(table.entries@, class_id, needed_fields), class_id)
            >= learned_count(table.entries@, class_id),
{
}

/// A class learns the widest of its instances: noting a width of up to 64 makes
/// the learned width the larger of the two, and a wider instance teaches
/// nothing. Zero is no class. Other classes keep what they learned, unless they
/// have the same entry, which then is the noted class's.
pub proof fn classes_learn_their_widest_instance(
    table: LearnedInlineTable,
    class_id: u32,
    needed_fields: u32,
    other: u32,
)
    requires
        table.wf(),
        other != class_id,
    ensures
        ({
            let before = table.entries@;
            let after = learned_noted(before, class_id, needed_fields);
            let had = learned_count(before, class_id);
            &&& before.len() == 1024
            &&& 0 <= learned_slot(class_id) < 1024
            &&& class_id == 0 || needed_fields > 64 ==> after == before
            &&& class_id != 0 && needed_fields <= 64 ==> learned_count(after, class_id) == (if had
                >= needed_fields {
                had
            } else {
                needed_fields
            })
            &&& learned_slot(other) != learned_slot(class_id) ==> learned_count(after, other)
                == learned_count(before, other)
            &&& learned_count(after, other) == learned_count(before, other) || learned_count(
                after,
                other,
            ) == 0
            &&& learned_count(before, 0) == 0
        }),
{
}

/// Learning is on unless the setting reads `0`, `off` or `false`.
pub proof fn only_a_no_switches_learning_off(text: Seq<u8>)
    ensures
        switched_on(None),
        !switched_on(Some(text)) <==> {
            ||| text == seq![48u8]
            ||| text == seq![111u8, 102, 102]
            ||| text == seq![102u8, 97, 108, 115, 101]
        },
{
    reveal_strlit("0");
    reveal_strlit("off");
    reveal_strlit("false");
    assert(ascii("0") =~= seq![48u8]);
    assert(ascii("off") =~= seq![111u8, 102, 102]);
    assert(ascii("false") =~= seq![102u8, 97, 108, 115, 101]);
}

/// New instances get the learned width of their class, and the default where
/// learning is off or nothing was learned.
pub proof fn instances_get_the_learned_width(
    table: LearnedInlineTable,
    class_id: u32,
    needed_fields: u32,
)
    requires
        table.wf(),
        class_id != 0,
        needed_fields <= 64,
    ensures
        learned_width(table.entries@, false, class_id) == 0,
        learned_width(nothing_learned(), true, class_id) == 0,
        learned_width(learned_noted(table.entries@, class_id, needed_fields), true, class_id)
            >= needed_fields,
        learned_width(learned_noted(nothing_learned(), class_id, needed_fields), true, class_id)
            == needed_fields,
{
}

} // verus!
