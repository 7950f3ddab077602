//! The object layer's side tables, kept together.

use vstd::prelude::*;

use crate::overflow::{OverflowTable, OverflowView};
use crate::shape_cache::{free_entry, CachedShape, ShapeCache, SHAPE_INLINE_CACHE_SIZE};
use crate::transition::{no_edges, TransitionCache};

verus! {

/// Field storage beyond the inline slots, and the caches of shapes and of
/// transitions between them.
#[derive(Debug)]
pub struct ObjectHotTables {
    pub overflow: OverflowTable,
    pub shape_cache: ShapeCache,
    pub transition_cache: TransitionCache,
}

impl ObjectHotTables {
    pub open spec fn wf(self) -> bool {
        &&& self.overflow@.wf()
        &&& self.shape_cache@.coherent()
        &&& self.transition_cache.wf()
    }

    /// Empty tables.
    pub fn new() -> (r: ObjectHotTables)
        ensures
            r.wf(),
            r.overflow@ == (OverflowView { fields: Map::empty(), last: 0 }),
            r.shape_cache@.inline_entries == Seq::new(
                SHAPE_INLINE_CACHE_SIZE as nat,
                |i: int| free_entry(),
            ),
            r.shape_cache@.overflow == Map::<u32, CachedShape>::empty(),
            r.transition_cache@ == no_edges(),
    {
        ObjectHotTables {
            overflow: OverflowTable::new(),
            shape_cache: ShapeCache::new(),
            transition_cache: TransitionCache::new(),
        }
    }
}

} // verus!
