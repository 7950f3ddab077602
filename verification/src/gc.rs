//! What the object layer tells the collector, and what the collector asks of
//! it.
//!
//! Stores into the heap are reported as `GcEvent`s. Root scanning runs a
//! `RuntimeRootVisitor` over every table that holds heap addresses: either to
//! mark what the tables keep alive, or to rewrite the addresses of what was
//! moved.

use std::collections::HashMap;
use vstd::prelude::*;

use crate::value::{
    boxed, payload, tagged, words_split_into_tag_and_payload, JSValue, POINTER_MASK, POINTER_TAG,
    STRING_TAG, TAG_MASK,
};

verus! {

broadcast use vstd::std_specs::hash::group_hash_axioms;

/// One report to the collector.
#[derive(Clone, Copy, PartialEq, Eq, Structural, Debug)]
pub enum GcEvent {
    /// Slot `index` of `owner` now holds `bits`; the layout mask may change.
    LayoutNote { owner: usize, index: usize, bits: u64 },
    /// A slot of `owner` outside the heap now holds `bits`.
    ExternalSlotBarrier { owner: usize, index: usize, bits: u64 },
    /// The heap slot at `slot_addr` of `owner` now holds `bits`.
    SlotBarrier { owner: usize, slot_addr: usize, bits: u64 },
    /// `bits` was stored, noted and barriered as slot `index` of `owner`.
    SlotStore { owner: usize, slot_addr: usize, index: usize, bits: u64 },
    /// A scanned table now holds `addr`.
    RootStore { addr: usize },
    /// A scanned root now holds the boxed word `bits`.
    RootWordStore { bits: u64 },
    /// `addr` became reachable from a root.
    RootBarrier { addr: usize },
    /// Nothing is known any more of the slots of `owner`.
    LayoutUnknown { owner: usize },
    /// The layout of `owner` is to be derived from its first `count` slots.
    LayoutRebuild { owner: usize, count: usize },
}

/// The reports in the order in which they were made.
#[derive(Debug)]
pub struct GcLog {
    pub events: Vec<GcEvent>,
}

impl View for GcLog {
    type V = Seq<GcEvent>;

    open spec fn view(&self) -> Seq<GcEvent> {
        self.events@
    }
}

impl GcLog {
    pub fn new() -> (r: GcLog)
        ensures
            r@ == Seq::<GcEvent>::empty(),
    {
        GcLog { events: Vec::new() }
    }

    pub fn report(&mut self, event: GcEvent)
        ensures
            final(self)@ == old(self)@.push(event),
    {
        self.events.push(event);
    }
}

/// A walk over the roots.
#[derive(Debug)]
pub struct RuntimeRootVisitor {
    /// Rewrite moved addresses; otherwise mark.
    pub rewriting: bool,
    /// Where the collector moved things to.
    pub forwarding: HashMap<usize, usize>,
    /// The values that were marked, in order.
    pub marked: Vec<u64>,
}

pub struct VisitorView {
    pub rewriting: bool,
    pub forwarding: Map<usize, usize>,
    pub marked: Seq<u64>,
}

impl View for RuntimeRootVisitor {
    type V = VisitorView;

    open spec fn view(&self) -> VisitorView {
        VisitorView {
            rewriting: self.rewriting,
            forwarding: self.forwarding@,
            marked: self.marked@,
        }
    }
}

impl VisitorView {
    /// Where `addr` is after the walk.
    pub open spec fn moved(self, addr: usize) -> usize {
        if self.rewriting && self.forwarding.contains_key(addr) {
            self.forwarding[addr]
        } else {
            addr
        }
    }

    /// What a boxed word reads after the walk.
    pub open spec fn moved_word(self, bits: u64) -> u64 {
        if carries_address(bits) && self.moved(payload(bits)) != payload(bits) {
            boxed((bits & TAG_MASK) as u64, self.moved(payload(bits)))
        } else {
            bits
        }
    }

    /// The visitor after it marked `words`.
    pub open spec fn marking(self, words: Seq<u64>) -> VisitorView {
        if self.rewriting {
            self
        } else {
            VisitorView { marked: self.marked + words, ..self }
        }
    }
}

/// Does a boxed word refer to the heap?
pub open spec fn carries_address(bits: u64) -> bool {
    tagged(bits, POINTER_TAG) || tagged(bits, STRING_TAG)
}

/// What a raw address adds to the marked values.
pub open spec fn address_marks(addr: usize) -> Seq<u64> {
    if addr == 0 {
        Seq::empty()
    } else {
        seq![boxed(POINTER_TAG, addr)]
    }
}

/// What a boxed word adds to the marked values.
pub open spec fn word_marks(bits: u64) -> Seq<u64> {
    if carries_address(bits) {
        seq![bits]
    } else {
        Seq::empty()
    }
}

/// What a run of boxed words adds to the marked values.
pub open spec fn words_marks(words: Seq<u64>) -> Seq<u64>
    decreases words.len(),
{
    if words.len() == 0 {
        Seq::empty()
    } else {
        words_marks(words.drop_last()) + word_marks(words.last())
    }
}

impl RuntimeRootVisitor {
    /// A visitor that marks.
    pub fn for_copy() -> (r: RuntimeRootVisitor)
        ensures
            r@ == (VisitorView {
                rewriting: false,
                forwarding: Map::empty(),
                marked: Seq::empty(),
            }),
    {
        RuntimeRootVisitor { rewriting: false, forwarding: HashMap::new(), marked: Vec::new() }
    }

    /// A visitor that rewrites the addresses in `forwarding`.
    pub fn for_rewrite(forwarding: HashMap<usize, usize>) -> (r: RuntimeRootVisitor)
        ensures
            r@ == (VisitorView {
                rewriting: true,
                forwarding: forwarding@,
                marked: Seq::empty(),
            }),
    {
        RuntimeRootVisitor { rewriting: true, forwarding, marked: Vec::new() }
    }

    pub fn is_metadata_rewrite_phase(&self) -> (r: bool)
        ensures
            r == self@.rewriting,
    {
        self.rewriting
    }

    /// The address after the walk.
    fn forwarded(&self, addr: usize) -> (r: usize)
        ensures
            r == self@.moved(addr),
    {
        if !self.rewriting {
            return addr;
        }
        match self.forwarding.get(&addr) {
            Some(to) => *to,
            None => addr,
        }
    }

    /// An address that is no reference: it keeps nothing alive, but follows
    /// what it names. Tells whether it changed.
    pub fn visit_metadata_usize_slot(&mut self, slot: &mut usize) -> (changed: bool)
        ensures
            final(self)@ == old(self)@,
            *final(slot) == old(self)@.moved(*old(slot)),
            changed == (*final(slot) != *old(slot)),
    {
        let to = self.forwarded(*slot);
        let changed = to != *slot;
        *slot = to;
        changed
    }

    /// A raw address that keeps its target alive.
    pub fn visit_usize_slot(&mut self, slot: &mut usize) -> (changed: bool)
        ensures
            final(self)@ == old(self)@.marking(address_marks(*old(slot))),
            *final(slot) == old(self)@.moved(*old(slot)),
            changed == (*final(slot) != *old(slot)),
    {
        if !self.rewriting {
            let addr: usize = *slot;
            if addr != 0 {
                self.marked.push(JSValue::pointer(addr).bits());
            }
            proof {
                assert(self@.marked =~= old(self)@.marked + address_marks(addr));
            }
            return false;
        }
        self.visit_metadata_usize_slot(slot)
    }

    /// A boxed value that keeps its target alive.
    pub fn visit_nanbox_u64_slot(&mut self, slot: &mut u64)
        ensures
            final(self)@ == old(self)@.marking(word_marks(*old(slot))),
            *final(slot) == old(self)@.moved_word(*old(slot)),
    {
        let bits: u64 = *slot;
        let v = JSValue::from_bits(bits);
        let refers = v.is_pointer() || v.is_string();
        if !self.rewriting {
            if refers {
                self.marked.push(bits);
            }
            proof {
                assert(self@.marked =~= old(self)@.marked + word_marks(bits));
            }
            return;
        }
        if refers {
            let from: usize = v.as_pointer();
            let to = self.forwarded(from);
            if to != from {
                *slot = (bits & TAG_MASK) | (to as u64 & POINTER_MASK);
            }
        }
    }
}

/// Visits every word of `words`.
pub fn visit_words(words: &mut Vec<u64>, visitor: &mut RuntimeRootVisitor)
    ensures
        final(words)@ == old(words)@.map_values(|bits: u64| old(visitor)@.moved_word(bits)),
        final(visitor)@ == old(visitor)@.marking(words_marks(old(words)@)),
{
    let ghost before = words@;
    let ghost start = visitor@;
    let mut i: usize = 0;
    proof {
        assert(before.take(0) =~= Seq::<u64>::empty());
        assert(start.marked + Seq::<u64>::empty() =~= start.marked);
    }
    while i < words.len()
        invariant
            words@.len() == before.len(),
            i <= before.len(),
            visitor@ == start.marking(words_marks(before.take(i as int))),
            forall|j: int| 0 <= j < i ==> #[trigger] words@[j] == start.moved_word(before[j]),
            forall|j: int| i <= j < before.len() ==> #[trigger] words@[j] == before[j],
        decreases before.len() - i,
    {
        let mut bits: u64 = words[i];
        visitor.visit_nanbox_u64_slot(&mut bits);
        words.set(i, bits);
        proof {
            let so_far = words_marks(before.take(i as int));
            assert(before.take(i + 1).drop_last() =~= before.take(i as int));
            assert(start.marked + (so_far + word_marks(before[i as int])) =~= (
            start.marked + so_far) + word_marks(before[i as int]));
        }
        i += 1;
    }
    proof {
        assert(before.take(i as int) =~= before);
        assert(words@ =~= before.map_values(|bits: u64| start.moved_word(bits)));
    }
}

/// What either of two runs of marks holds, both together hold.
pub proof fn lemma_in_either(a: Seq<u64>, b: Seq<u64>, bits: u64)
    requires
        a.contains(bits) || b.contains(bits),
    ensures
        (a + b).contains(bits),
{
    if a.contains(bits) {
        let i = choose|i: int| 0 <= i < a.len() && a[i] == bits;
        assert((a + b)[i] == bits);
    } else {
        let i = choose|i: int| 0 <= i < b.len() && b[i] == bits;
        assert((a + b)[a.len() + i] == bits);
    }
}

/// A scan of boxed words misses none that refers to the heap.
pub proof fn every_reference_is_marked(words: Seq<u64>, i: int)
    requires
        0 <= i < words.len(),
        carries_address(words[i]),
    ensures
        words_marks(words).contains(words[i]),
    decreases words.len(),
{
    let rest = words_marks(words.drop_last());
    let here = word_marks(words.last());
    if i < words.len() - 1 {
        every_reference_is_marked(words.drop_last(), i);
    } else {
        assert(here[0] == words[i]);
    }
    lemma_in_either(rest, here, words[i]);
}

/// Exactly references and heap strings refer to the heap.
pub proof fn references_are_known_by_their_tag(bits: u64)
    ensures
        carries_address(bits) <==> {
            let tag = bits & 0xFFFF_0000_0000_0000u64;
            tag == 0x7FFD_0000_0000_0000 || tag == 0x7FFF_0000_0000_0000
        },
{
}

/// A scan of boxed words marks those that refer to the heap, each as often as it
/// is there and in the order of the words, and nothing else.
pub proof fn scans_mark_the_references(words: Seq<u64>)
    ensures
        words_marks(words) == words.filter(|bits: u64| carries_address(bits)),
    decreases words.len(),
{
    reveal(Seq::filter);
    if words.len() > 0 {
        scans_mark_the_references(words.drop_last());
        assert(words_marks(words) =~= words.filter(|bits: u64| carries_address(bits)));
    }
}

/// A visitor that rewrites follows the collector: an address that was moved is
/// replaced by where it is now, once, and every other address stays. A boxed
/// word keeps its tag, and a word that refers to nothing stays as it is. A
/// visitor that marks changes nothing.
pub proof fn rewriting_follows_the_collector(v: VisitorView, addr: usize, bits: u64)
    requires
        forall|a: usize| #[trigger]
            v.forwarding.contains_key(a) ==> v.forwarding[a] < 0x0001_0000_0000_0000,
    ensures
        v.rewriting && v.forwarding.contains_key(addr) ==> v.moved(addr) == v.forwarding[addr],
        !v.rewriting || !v.forwarding.contains_key(addr) ==> v.moved(addr) == addr,
        !carries_address(bits) ==> v.moved_word(bits) == bits,
        carries_address(bits) ==> {
            &&& v.moved_word(bits) & 0xFFFF_0000_0000_0000u64 == bits & 0xFFFF_0000_0000_0000u64
            &&& payload(v.moved_word(bits)) == v.moved(payload(bits))
        },
        !v.rewriting ==> v.moved_word(bits) == bits,
{
    if carries_address(bits) && v.moved(payload(bits)) != payload(bits) {
        let to = v.moved(payload(bits)) as u64;
        assert(((bits & 0xFFFF_0000_0000_0000u64) | (to & 0x0000_FFFF_FFFF_FFFFu64))
            & 0xFFFF_0000_0000_0000u64 == bits & 0xFFFF_0000_0000_0000u64 && ((bits
            & 0xFFFF_0000_0000_0000u64) | (to & 0x0000_FFFF_FFFF_FFFFu64))
            & 0x0000_FFFF_FFFF_FFFFu64 == to) by (bit_vector)
            requires
                to < 0x0001_0000_0000_0000u64,
        ;
    }
}

/// What is visited adds to the marks of a marking visitor, after those that were
/// there, and leaves a rewriting one as it was.
pub proof fn marks_add_up(v: VisitorView, first: Seq<u64>, more: Seq<u64>)
    ensures
        !v.rewriting ==> v.marking(first).marked == v.marked + first,
        v.rewriting ==> v.marking(first) == v,
        v.marking(first).marking(more) == v.marking(first + more),
        v.marking(first).rewriting == v.rewriting,
        v.marking(first).forwarding == v.forwarding,
{
    assert(v.marked + first + more =~= v.marked + (first + more));
}

/// A raw address is marked as a reference to it, and zero refers to nothing.
pub proof fn addresses_are_marked_as_references(addr: usize)
    requires
        addr < 0x0001_0000_0000_0000,
    ensures
        addr == 0 ==> address_marks(addr).len() == 0,
        addr != 0 ==> address_marks(addr) == seq![(0x7FFD_0000_0000_0000 + addr) as u64],
{
    words_split_into_tag_and_payload(0, addr);
}

/// References to the addresses that are set, in their order.
pub open spec fn references_to(addrs: Seq<usize>) -> Seq<u64> {
    addrs.filter(|a: usize| a != 0).map_values(|a: usize| boxed(POINTER_TAG, a))
}

/// One more address adds a reference if it is set.
pub proof fn lemma_one_more_reference(addrs: Seq<usize>, addr: usize)
    ensures
        references_to(addrs.push(addr)) == references_to(addrs) + address_marks(addr),
        references_to(Seq::empty()) == Seq::<u64>::empty(),
{
    reveal(Seq::filter);
    assert(addrs.push(addr).drop_last() =~= addrs);
    assert(references_to(addrs.push(addr)) =~= references_to(addrs) + address_marks(addr));
    assert(references_to(Seq::empty()) =~= Seq::<u64>::empty());
}

} // verus!
