//! Cached singletons of the object layer, which are roots: module constant
//! objects, intrinsic prototypes and storages.

use vstd::prelude::*;

use crate::gc::{
    address_marks, carries_address, every_reference_is_marked, lemma_in_either,
    lemma_one_more_reference, references_to, scans_mark_the_references, visit_words, words_marks,
    GcEvent, GcLog, RuntimeRootVisitor, VisitorView,
};
use crate::value::{boxed, POINTER_TAG};

verus! {

/// Number of cached module objects.
pub const OBJECT_CACHES: usize = 7;

pub const HTTP_METHODS: usize = 0;

pub const FS_CONSTANTS: usize = 1;

pub const OS_CONSTANTS: usize = 2;

pub const OS_CONSTANTS_SIGNALS: usize = 3;

pub const OS_CONSTANTS_ERRNO: usize = 4;

pub const OS_CONSTANTS_PRIORITY: usize = 5;

pub const OS_CONSTANTS_DLOPEN: usize = 6;

/// Number of intrinsics: the global object, then the typed-array, generator
/// and async-generator towers.
pub const INTRINSICS: usize = 9;

pub const GLOBAL_THIS: usize = 0;

pub const TYPED_ARRAY_INTRINSIC: usize = 1;

pub const TYPED_ARRAY_INTRINSIC_PROTO: usize = 2;

pub const GENERATOR_FUNCTION_INTRINSIC: usize = 3;

pub const GENERATOR_INTRINSIC_PROTO: usize = 4;

pub const GENERATOR_PROTOTYPE: usize = 5;

pub const ASYNC_GENERATOR_FUNCTION_INTRINSIC: usize = 6;

pub const ASYNC_GENERATOR_INTRINSIC_PROTO: usize = 7;

pub const ASYNC_GENERATOR_PROTOTYPE: usize = 8;

/// Number of storages and shared iterator prototypes.
pub const SHARED_PROTOTYPES: usize = 8;

pub const LOCAL_STORAGE: usize = 0;

pub const SESSION_STORAGE: usize = 1;

pub const ITERATOR_PROTOTYPE: usize = 2;

pub const ARRAY_ITERATOR_PROTOTYPE: usize = 3;

pub const MAP_ITERATOR_PROTOTYPE: usize = 4;

pub const SET_ITERATOR_PROTOTYPE: usize = 5;

pub const STRING_ITERATOR_PROTOTYPE: usize = 6;

pub const REGEXP_STRING_ITERATOR_PROTOTYPE: usize = 7;

/// The roots. Module objects and queued values are boxed words; the others
/// are raw addresses, zero while unset.
#[derive(Debug)]
pub struct ObjectCacheRoots {
    pub object_caches: Vec<u64>,
    pub intrinsics: Vec<i64>,
    /// Values that pending async generators hold.
    pub async_generator_queue: Vec<u64>,
    pub shared_prototypes: Vec<i64>,
    pub global_this_ready: bool,
}

pub struct ObjectCacheRootsView {
    pub object_caches: Seq<u64>,
    pub intrinsics: Seq<i64>,
    pub async_generator_queue: Seq<u64>,
    pub shared_prototypes: Seq<i64>,
    pub global_this_ready: bool,
}

impl View for ObjectCacheRoots {
    type V = ObjectCacheRootsView;

    open spec fn view(&self) -> ObjectCacheRootsView {
        ObjectCacheRootsView {
            object_caches: self.object_caches@,
            intrinsics: self.intrinsics@,
            async_generator_queue: self.async_generator_queue@,
            shared_prototypes: self.shared_prototypes@,
            global_this_ready: self.global_this_ready,
        }
    }
}

/// What a raw address adds to the marked values.
pub open spec fn raw_marks(ptr: i64) -> Seq<u64> {
    address_marks(ptr as usize)
}

/// What a run of raw addresses adds to the marked values.
pub open spec fn raws_marks(ptrs: Seq<i64>) -> Seq<u64>
    decreases ptrs.len(),
{
    if ptrs.len() == 0 {
        Seq::empty()
    } else {
        raws_marks(ptrs.drop_last()) + raw_marks(ptrs.last())
    }
}

pub open spec fn moved_raw(visitor: VisitorView, ptr: i64) -> i64 {
    if visitor.moved(ptr as usize) != ptr as usize {
        visitor.moved(ptr as usize) as i64
    } else {
        ptr
    }
}

impl ObjectCacheRootsView {
    pub open spec fn wf(self) -> bool {
        &&& self.object_caches.len() == OBJECT_CACHES
        &&& self.intrinsics.len() == INTRINSICS
        &&& self.shared_prototypes.len() == SHARED_PROTOTYPES
    }

    /// Everything that the roots keep alive, in the order of the walk.
    pub open spec fn marks(self) -> Seq<u64> {
        words_marks(self.object_caches) + raws_marks(self.intrinsics)
            + words_marks(self.async_generator_queue) + raws_marks(
            self.shared_prototypes,
        )
    }

    /// The roots after a walk.
    pub open spec fn moved(self, visitor: VisitorView) -> ObjectCacheRootsView {
        ObjectCacheRootsView {
            object_caches: self.object_caches.map_values(|b: u64| visitor.moved_word(b)),
            intrinsics: self.intrinsics.map_values(|p: i64| moved_raw(visitor, p)),
            async_generator_queue: self.async_generator_queue.map_values(
                |b: u64| visitor.moved_word(b),
            ),
            shared_prototypes: self.shared_prototypes.map_values(|p: i64| moved_raw(visitor, p)),
            global_this_ready: self.global_this_ready,
        }
    }
}

/// Visits a run of raw addresses.
fn visit_raws(ptrs: &mut Vec<i64>, visitor: &mut RuntimeRootVisitor)
    ensures
        final(ptrs)@ == old(ptrs)@.map_values(|p: i64| moved_raw(old(visitor)@, p)),
        final(visitor)@ == old(visitor)@.marking(raws_marks(old(ptrs)@)),
{
    let ghost before = ptrs@;
    let ghost start = visitor@;
    let mut i: usize = 0;
    proof {
        assert(before.take(0) =~= Seq::<i64>::empty());
        assert(start.marked + Seq::<u64>::empty() =~= start.marked);
    }
    while i < ptrs.len()
        invariant
            ptrs@.len() == before.len(),
            i <= before.len(),
            visitor@ == start.marking(raws_marks(before.take(i as int))),
            forall|j: int| 0 <= j < i ==> #[trigger] ptrs@[j] == moved_raw(start, before[j]),
            forall|j: int| i <= j < before.len() ==> #[trigger] ptrs@[j] == before[j],
        decreases before.len() - i,
    {
        let mut addr: usize = ptrs[i] as usize;
        if visitor.visit_usize_slot(&mut addr) {
            ptrs.set(i, addr as i64);
        }
        proof {
            let so_far = raws_marks(before.take(i as int));
            assert(before.take(i + 1).drop_last() =~= before.take(i as int));
            assert(start.marked + (so_far + raw_marks(before[i as int])) =~= (start.marked + so_far)
                + raw_marks(before[i as int]));
        }
        i += 1;
    }
    proof {
        assert(before.take(i as int) =~= before);
        assert(ptrs@ =~= before.map_values(|p: i64| moved_raw(start, p)));
    }
}

/// Walks the cached singletons as roots.
pub fn scan_object_cache_roots_mut(
    roots: &mut ObjectCacheRoots,
    visitor: &mut RuntimeRootVisitor,
)
    requires
        old(roots)@.wf(),
    ensures
        final(roots)@.wf(),
        final(roots)@ == old(roots)@.moved(old(visitor)@),
        final(visitor)@ == old(visitor)@.marking(old(roots)@.marks()),
{
    let ghost start = visitor@;
    let ghost r = roots@;
    visit_words(&mut roots.object_caches, visitor);
    visit_raws(&mut roots.intrinsics, visitor);
    visit_words(&mut roots.async_generator_queue, visitor);
    visit_raws(&mut roots.shared_prototypes, visitor);
    proof {
        let a = words_marks(r.object_caches);
        let b = raws_marks(r.intrinsics);
        let c = words_marks(r.async_generator_queue);
        let d = raws_marks(r.shared_prototypes);
        assert((((start.marked + a) + b) + c) + d =~= start.marked + (((a + b) + c) + d));
        assert(roots@.object_caches =~= r.moved(start).object_caches);
        assert(roots@.intrinsics =~= r.moved(start).intrinsics);
        assert(roots@.async_generator_queue =~= r.moved(start).async_generator_queue);
        assert(roots@.shared_prototypes =~= r.moved(start).shared_prototypes);
    }
}

/// Marks what the cached singletons keep alive: the values to mark, in order.
pub fn scan_object_cache_roots(roots: &mut ObjectCacheRoots) -> (marked: Vec<u64>)
    requires
        old(roots)@.wf(),
    ensures
        final(roots)@ == old(roots)@,
        marked@ == old(roots)@.marks(),
{
    let mut visitor = RuntimeRootVisitor::for_copy();
    let ghost start = visitor@;
    scan_object_cache_roots_mut(roots, &mut visitor);
    proof {
        let r = old(roots)@;
        assert(r.moved(start).object_caches =~= r.object_caches);
        assert(r.moved(start).intrinsics =~= r.intrinsics);
        assert(r.moved(start).async_generator_queue =~= r.async_generator_queue);
        assert(r.moved(start).shared_prototypes =~= r.shared_prototypes);
        assert(visitor@.marked =~= r.marks());
    }
    visitor.marked
}

impl ObjectCacheRoots {
    /// Nothing cached.
    pub fn new() -> (r: ObjectCacheRoots)
        ensures
            r@.wf(),
            r@.object_caches == Seq::new(OBJECT_CACHES as nat, |i: int| 0u64),
            r@.intrinsics == Seq::new(INTRINSICS as nat, |i: int| 0i64),
            r@.async_generator_queue == Seq::<u64>::empty(),
            r@.shared_prototypes == Seq::new(SHARED_PROTOTYPES as nat, |i: int| 0i64),
            !r@.global_this_ready,
    {
        let r = ObjectCacheRoots {
            object_caches: vec![0u64; OBJECT_CACHES],
            intrinsics: vec![0i64; INTRINSICS],
            async_generator_queue: Vec::new(),
            shared_prototypes: vec![0i64; SHARED_PROTOTYPES],
            global_this_ready: false,
        };
        proof {
            assert(r@.object_caches =~= Seq::new(OBJECT_CACHES as nat, |i: int| 0u64));
            assert(r@.intrinsics =~= Seq::new(INTRINSICS as nat, |i: int| 0i64));
            assert(r@.shared_prototypes =~= Seq::new(SHARED_PROTOTYPES as nat, |i: int| 0i64));
        }
        r
    }
}

/// The reports of stores into the module objects and the global object.
pub open spec fn seed_events(words: Seq<u64>, global_this: i64) -> Seq<GcEvent> {
    words.map_values(|bits: u64| GcEvent::RootWordStore { bits }).push(
        GcEvent::RootStore { addr: global_this as usize },
    )
}

/// Stores the module objects and the global object.
fn store_roots(
    roots: &mut ObjectCacheRoots,
    gc: &mut GcLog,
    words: &[u64; 7],
    global_this: i64,
    ready: bool,
)
    requires
        old(roots)@.wf(),
    ensures
        final(roots)@.wf(),
        final(roots)@ == (ObjectCacheRootsView {
            object_caches: words@,
            intrinsics: old(roots)@.intrinsics.update(GLOBAL_THIS as int, global_this),
            global_this_ready: ready,
            ..old(roots)@
        }),
        final(gc)@ == old(gc)@ + seed_events(words@, global_this),
{
    let ghost start = gc@;
    let mut i: usize = 0;
    while i < OBJECT_CACHES
        invariant
            i <= OBJECT_CACHES,
            words@.len() == OBJECT_CACHES,
            roots@.object_caches.len() == OBJECT_CACHES,
            roots@ == (ObjectCacheRootsView {
                object_caches: roots@.object_caches,
                ..old(roots)@
            }),
            forall|j: int| 0 <= j < i ==> #[trigger] roots@.object_caches[j] == words@[j],
            gc@ =~= start + words@.take(i as int).map_values(
                |bits: u64| GcEvent::RootWordStore { bits },
            ),
        decreases OBJECT_CACHES - i,
    {
        let bits: u64 = words[i];
        roots.object_caches.set(i, bits);
        gc.report(GcEvent::RootWordStore { bits });
        i += 1;
    }
    roots.intrinsics.set(GLOBAL_THIS, global_this);
    gc.report(GcEvent::RootStore { addr: global_this as usize });
    roots.global_this_ready = ready;
    proof {
        assert(roots@.object_caches =~= words@);
        assert(words@.take(i as int) =~= words@);
        assert(gc@ =~= start + seed_events(words@, global_this));
    }
}

/// Stores the module objects and the global object, which is ready then.
pub fn test_seed_object_cache_roots(
    roots: &mut ObjectCacheRoots,
    gc: &mut GcLog,
    object_cache_bits: [u64; 7],
    global_this_ptr: i64,
)
    requires
        old(roots)@.wf(),
    ensures
        final(roots)@.wf(),
        final(roots)@ == (ObjectCacheRootsView {
            object_caches: object_cache_bits@,
            intrinsics: old(roots)@.intrinsics.update(GLOBAL_THIS as int, global_this_ptr),
            global_this_ready: true,
            ..old(roots)@
        }),
        final(gc)@ == old(gc)@ + seed_events(object_cache_bits@, global_this_ptr),
{
    store_roots(roots, gc, &object_cache_bits, global_this_ptr, true);
}

/// The module objects and the global object.
pub fn test_object_cache_roots(roots: &ObjectCacheRoots) -> (r: ([u64; 7], i64))
    requires
        roots@.wf(),
    ensures
        r.0@ == roots@.object_caches,
        r.1 == roots@.intrinsics[GLOBAL_THIS as int],
{
    let c = &roots.object_caches;
    let words: [u64; 7] = [
        c[HTTP_METHODS],
        c[FS_CONSTANTS],
        c[OS_CONSTANTS],
        c[OS_CONSTANTS_SIGNALS],
        c[OS_CONSTANTS_ERRNO],
        c[OS_CONSTANTS_PRIORITY],
        c[OS_CONSTANTS_DLOPEN],
    ];
    assert(words@ =~= roots@.object_caches);
    (words, roots.intrinsics[GLOBAL_THIS])
}

/// Forgets the module objects and the global object.
pub fn test_clear_object_cache_roots(roots: &mut ObjectCacheRoots, gc: &mut GcLog)
    requires
        old(roots)@.wf(),
    ensures
        final(roots)@.wf(),
        final(roots)@ == (ObjectCacheRootsView {
            object_caches: Seq::new(OBJECT_CACHES as nat, |i: int| 0u64),
            intrinsics: old(roots)@.intrinsics.update(GLOBAL_THIS as int, 0i64),
            global_this_ready: false,
            ..old(roots)@
        }),
        final(gc)@ == old(gc)@ + seed_events(Seq::new(OBJECT_CACHES as nat, |i: int| 0u64), 0),
{
    let zeros: [u64; 7] = [0, 0, 0, 0, 0, 0, 0];
    assert(zeros@ =~= Seq::new(OBJECT_CACHES as nat, |i: int| 0u64));
    store_roots(roots, gc, &zeros, 0, false);
}

proof fn lemma_raw_is_marked(ptrs: Seq<i64>, i: int)
    requires
        0 <= i < ptrs.len(),
        ptrs[i] as usize != 0,
    ensures
        raws_marks(ptrs).contains(boxed(POINTER_TAG, ptrs[i] as usize)),
    decreases ptrs.len(),
{
    let bits = boxed(POINTER_TAG, ptrs[i] as usize);
    let rest = raws_marks(ptrs.drop_last());
    let here = raw_marks(ptrs.last());
    if i < ptrs.len() - 1 {
        lemma_raw_is_marked(ptrs.drop_last(), i);
    } else {
        assert(here[0] == bits);
    }
    lemma_in_either(rest, here, bits);
}

/// A marking scan keeps every cached singleton alive.
pub proof fn every_singleton_is_marked(roots: ObjectCacheRootsView, i: int)
    ensures
        0 <= i < roots.object_caches.len() && carries_address(roots.object_caches[i])
            ==> roots.marks().contains(roots.object_caches[i]),
        0 <= i < roots.intrinsics.len() && roots.intrinsics[i] as usize != 0
            ==> roots.marks().contains(boxed(POINTER_TAG, roots.intrinsics[i] as usize)),
        0 <= i < roots.async_generator_queue.len() && carries_address(
            roots.async_generator_queue[i],
        ) ==> roots.marks().contains(roots.async_generator_queue[i]),
        0 <= i < roots.shared_prototypes.len() && roots.shared_prototypes[i] as usize != 0
            ==> roots.marks().contains(boxed(POINTER_TAG, roots.shared_prototypes[i] as usize)),
{
    let a = words_marks(roots.object_caches);
    let b = raws_marks(roots.intrinsics);
    let c = words_marks(roots.async_generator_queue);
    let d = raws_marks(roots.shared_prototypes);
    if 0 <= i < roots.object_caches.len() && carries_address(roots.object_caches[i]) {
        let bits = roots.object_caches[i];
        every_reference_is_marked(roots.object_caches, i);
        lemma_in_either(a, b, bits);
        lemma_in_either(a + b, c, bits);
        lemma_in_either(a + b + c, d, bits);
    }
    if 0 <= i < roots.intrinsics.len() && roots.intrinsics[i] as usize != 0 {
        let bits = boxed(POINTER_TAG, roots.intrinsics[i] as usize);
        lemma_raw_is_marked(roots.intrinsics, i);
        lemma_in_either(a, b, bits);
        lemma_in_either(a + b, c, bits);
        lemma_in_either(a + b + c, d, bits);
    }
    if 0 <= i < roots.async_generator_queue.len() && carries_address(
        roots.async_generator_queue[i],
    ) {
        let bits = roots.async_generator_queue[i];
        every_reference_is_marked(roots.async_generator_queue, i);
        lemma_in_either(a + b, c, bits);
        lemma_in_either(a + b + c, d, bits);
    }
    if 0 <= i < roots.shared_prototypes.len() && roots.shared_prototypes[i] as usize != 0 {
        let bits = boxed(POINTER_TAG, roots.shared_prototypes[i] as usize);
        lemma_raw_is_marked(roots.shared_prototypes, i);
        lemma_in_either(a + b + c, d, bits);
    }
}

proof fn lemma_raws_are_references(ptrs: Seq<i64>)
    ensures
        raws_marks(ptrs) == references_to(ptrs.map_values(|p: i64| p as usize)),
    decreases ptrs.len(),
{
    let addrs = ptrs.map_values(|p: i64| p as usize);
    lemma_one_more_reference(Seq::empty(), 0);
    if ptrs.len() > 0 {
        lemma_raws_are_references(ptrs.drop_last());
        lemma_one_more_reference(
            ptrs.drop_last().map_values(|p: i64| p as usize),
            ptrs.last() as usize,
        );
        assert(addrs =~= ptrs.drop_last().map_values(|p: i64| p as usize).push(
            ptrs.last() as usize,
        ));
    } else {
        assert(addrs =~= Seq::<usize>::empty());
    }
}

/// A marking scan marks the singletons and nothing else: of the module objects
/// and the queued values those that refer to the heap, of the addresses those
/// that are set.
pub proof fn singletons_are_marked_in_turn(roots: ObjectCacheRootsView)
    ensures
        roots.marks() == roots.object_caches.filter(|b: u64| carries_address(b)) + references_to(
            roots.intrinsics.map_values(|p: i64| p as usize),
        ) + roots.async_generator_queue.filter(|b: u64| carries_address(b)) + references_to(
            roots.shared_prototypes.map_values(|p: i64| p as usize),
        ),
{
    scans_mark_the_references(roots.object_caches);
    scans_mark_the_references(roots.async_generator_queue);
    lemma_raws_are_references(roots.intrinsics);
    lemma_raws_are_references(roots.shared_prototypes);
}

/// A walk leaves every singleton in its place and lets it follow what it refers
/// to.
pub proof fn singletons_follow_what_moved(
    roots: ObjectCacheRootsView,
    visitor: VisitorView,
    i: int,
)
    requires
        roots.wf(),
        0 <= i,
        forall|a: usize| #[trigger]
            visitor.forwarding.contains_key(a) ==> visitor.forwarding[a] < 0x0001_0000_0000_0000,
    ensures
        ({
            let after = roots.moved(visitor);
            &&& after.wf()
            &&& after.global_this_ready == roots.global_this_ready
            &&& after.async_generator_queue.len() == roots.async_generator_queue.len()
            &&& i < 7 ==> after.object_caches[i] == visitor.moved_word(roots.object_caches[i])
            &&& i < roots.async_generator_queue.len() ==> after.async_generator_queue[i]
                == visitor.moved_word(roots.async_generator_queue[i])
            &&& i < 9 && 0 <= roots.intrinsics[i] < 0x0001_0000_0000_0000
                ==> after.intrinsics[i] == visitor.moved(roots.intrinsics[i] as usize)
                || roots.intrinsics[i] > usize::MAX
            &&& i < 8 && 0 <= roots.shared_prototypes[i] < 0x0001_0000_0000_0000
                ==> after.shared_prototypes[i] == visitor.moved(
                roots.shared_prototypes[i] as usize,
            ) || roots.shared_prototypes[i] > usize::MAX
        }),
{
}

/// Each stored module object is reported, in order, and the global object last.
pub proof fn stored_singletons_are_reported(words: Seq<u64>, global_this: i64, i: int)
    requires
        0 <= i < words.len(),
    ensures
        seed_events(words, global_this).len() == words.len() + 1,
        seed_events(words, global_this)[i] == (GcEvent::RootWordStore { bits: words[i] }),
        seed_events(words, global_this).last() == (GcEvent::RootStore {
            addr: global_this as usize,
        }),
{
}

} // verus!
