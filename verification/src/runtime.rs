//! The state of the object layer as a whole.

use vstd::prelude::*;

use crate::gc::{GcEvent, GcLog};
use crate::heap::{
    frontier_after, object_at, CellView, Cells, EntryView, Heap, GC_HEADER_SIZE, HEAP_START,
};
use crate::hot_tables::ObjectHotTables;
use crate::keys::{fresh_string, js_string_from_bytes, InternTable};
use crate::learned_inline::{nothing_learned, LearnedEntry, LearnedInlineTable};
use crate::overflow::OverflowView;
use crate::shape_cache::{free_entry, CachedShape, ShapeCacheView, SHAPE_INLINE_CACHE_SIZE};
use crate::shapes::{ids_drawn, ShapeIds, ShapeTable, ShapeView, Shapes};
use crate::transition::{no_edges, TransitionEntry};
use crate::world::{lemma_allocated, lemma_only_added, only_added, same_properties, World};

verus! {

/// All that the object layer of a thread holds, and the counter of shape ids.
pub struct ObjectState {
    pub cells: Cells,
    pub frontier: usize,
    pub interned: Map<u64, Seq<usize>>,
    pub shapes: Shapes,
    pub next: u32,
    pub overflow: OverflowView,
    pub shape_cache: ShapeCacheView,
    pub edges: Seq<TransitionEntry>,
    pub learned: Seq<LearnedEntry>,
    pub gc: Seq<GcEvent>,
}

impl ObjectState {
    /// The address that the next allocation gets.
    pub open spec fn next_cell(self) -> usize {
        (self.frontier + GC_HEADER_SIZE) as usize
    }
}

/// Heap, key tables and side tables of one thread. Shape ids come from a
/// counter that all threads share.
pub struct ObjectRuntime {
    pub heap: Heap,
    pub interned: InternTable,
    pub shapes: ShapeTable,
    pub hot: ObjectHotTables,
    pub learned: LearnedInlineTable,
    pub gc: GcLog,
}

impl ObjectRuntime {
    pub open spec fn world(self) -> World {
        World {
            cells: self.heap@,
            shapes: self.shapes@,
            edges: self.hot.transition_cache@,
            cache: self.hot.shape_cache@.overflow,
            overflow: self.hot.overflow@.fields,
        }
    }

    /// The whole state, with the counter of ids at `next`.
    pub open spec fn state(self, next: u32) -> ObjectState {
        ObjectState {
            cells: self.heap@,
            frontier: self.heap.frontier(),
            interned: self.interned@,
            shapes: self.shapes@,
            next,
            overflow: self.hot.overflow@,
            shape_cache: self.hot.shape_cache@,
            edges: self.hot.transition_cache@,
            learned: self.learned.entries@,
            gc: self.gc@,
        }
    }

    pub open spec fn wf(self) -> bool {
        &&& self.heap.wf()
        &&& self.hot.wf()
        &&& self.learned.wf()
        &&& self.world().ok()
    }

    /// Were the ids of all shapes drawn from this counter?
    pub open spec fn draws_from(self, ids: ShapeIds) -> bool {
        ids_drawn(self.shapes@, ids.next)
    }

    /// Allocates a string.
    pub fn new_string(&mut self, text: &[u8]) -> (addr: usize)
        requires
            old(self).wf(),
            text@.len() + 64 <= old(self).heap.room(),
        ensures
            final(self).wf(),
            addr == old(self).heap.next_cell(),
            !old(self).heap@.contains_key(addr),
            final(self).heap@ == old(self).heap@.insert(addr, fresh_string(text@)),
            final(self).heap.frontier() == frontier_after(
                old(self).heap.frontier(),
                CellView::String(text@),
            ),
            *final(self) == (ObjectRuntime { heap: final(self).heap, ..*old(self) }),
            final(self).heap.room() >= old(self).heap.room() - text@.len() - 64,
            only_added(old(self).world(), final(self).world()),
            same_properties(old(self).world(), final(self).world()),
    {
        let ghost w0 = self.world();
        let addr = js_string_from_bytes(&mut self.heap, text);
        proof {
            let entry = fresh_string(text@);
            assert(self.world() == (World { cells: w0.cells.insert(addr, entry), ..w0 }));
            lemma_allocated(w0, addr, entry);
            assert(object_at(w0.cells, addr) is None);
            lemma_only_added(w0, self.world());
        }
        addr
    }

    /// An empty heap and empty tables; nothing was reported. A runtime without
    /// shapes may draw from any counter.
    pub fn new() -> (r: ObjectRuntime)
        ensures
            r.wf(),
            forall|ids: ShapeIds| ids.wf() ==> #[trigger] r.draws_from(ids),
            r.heap@ == Map::<usize, EntryView>::empty(),
            r.heap.frontier() == HEAP_START,
            r.interned@ == Map::<u64, Seq<usize>>::empty(),
            r.shapes@ == Map::<usize, ShapeView>::empty(),
            r.hot.overflow@ == (OverflowView { fields: Map::empty(), last: 0 }),
            r.hot.shape_cache@.inline_entries == Seq::new(
                SHAPE_INLINE_CACHE_SIZE as nat,
                |i: int| free_entry(),
            ),
            r.hot.shape_cache@.overflow == Map::<u32, CachedShape>::empty(),
            r.hot.transition_cache@ == no_edges(),
            r.learned.entries@ == nothing_learned(),
            r.gc@ == Seq::<GcEvent>::empty(),
    {
        ObjectRuntime {
            heap: Heap::new(),
            interned: InternTable::new(),
            shapes: ShapeTable::new(),
            hot: ObjectHotTables::new(),
            learned: LearnedInlineTable::new(),
            gc: GcLog::new(),
        }
    }
}

} // verus!
