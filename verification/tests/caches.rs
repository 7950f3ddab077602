use std::collections::HashMap;

use perry_object::gc::{GcEvent, GcLog, RuntimeRootVisitor};
use perry_object::heap::Heap;
use perry_object::hot_tables::ObjectHotTables;
use perry_object::key_lists::array_from;
use perry_object::keys::js_string_from_bytes;
use perry_object::shape_cache::{
    scan_shape_cache_roots, scan_shape_cache_roots_mut, shape_cache_get, shape_cache_get_with_id,
    shape_cache_insert, test_seed_shape_cache_root, test_shape_cache_root, CachedShape, ShapeCache,
};
use perry_object::shapes::{ShapeIds, ShapeTable, SHAPE_ID_BASE};
use perry_object::transition::{
    scan_transition_cache_roots, scan_transition_cache_roots_mut, test_clear_transition_cache_root,
    test_seed_transition_cache_root, test_transition_cache_root, transition_cache_insert,
    transition_cache_lookup, transition_cache_slot, transition_cache_stamp_shape_shared,
    transition_edge_places_key, TransitionCache, TransitionEntry, TRANSITION_CACHE_SIZE,
};
use perry_object::value::JSValue;

fn string(heap: &mut Heap, text: &str) -> usize {
    js_string_from_bytes(heap, text.as_bytes())
}

/// An array of these strings with spare capacity.
fn list(heap: &mut Heap, strings: &[usize]) -> usize {
    let bits: Vec<u64> = strings.iter().map(|s| JSValue::string(*s).bits()).collect();
    array_from(heap, &bits, bits.len() as u32 + 2)
}

fn is_shared(heap: &Heap, keys: usize) -> bool {
    heap.gc_header(keys).unwrap().shape_shared
}

#[test]
fn hot_tables_start_empty() {
    let hot = ObjectHotTables::new();
    assert!(hot.overflow.fields.is_empty());
    assert_eq!(hot.overflow.last, 0);
    assert_eq!(hot.shape_cache.inline_entries.len(), 256);
    assert!(hot.shape_cache.overflow.is_empty());
    assert_eq!(hot.transition_cache.entries.len(), 16384);
    assert_eq!(shape_cache_get(&hot.shape_cache, 0), 0);
    assert_eq!(shape_cache_get(&hot.shape_cache, 9), 0);
}

#[test]
fn cached_shapes_are_found_although_their_entry_was_taken() {
    let mut heap = Heap::new();
    let mut cache = ShapeCache::new();
    let mut shapes = ShapeTable::new();
    let mut ids = ShapeIds::new();
    let mut gc = GcLog::new();
    let a = list(&mut heap, &[]);
    let b = list(&mut heap, &[]);
    shape_cache_insert(&mut cache, &mut heap, &mut shapes, &mut ids, &mut gc, 3, a);
    assert!(is_shared(&heap, a));
    assert_eq!(
        gc.events,
        vec![GcEvent::RootStore { addr: a }, GcEvent::RootBarrier { addr: a }]
    );
    // 3 and 259 share a direct-mapped entry.
    shape_cache_insert(&mut cache, &mut heap, &mut shapes, &mut ids, &mut gc, 259, b);
    assert_eq!(
        shape_cache_get_with_id(&cache, 3),
        CachedShape { keys_array: a, runtime_shape_id: SHAPE_ID_BASE }
    );
    assert_eq!(
        shape_cache_get_with_id(&cache, 259),
        CachedShape { keys_array: b, runtime_shape_id: SHAPE_ID_BASE + 1 }
    );
    assert_eq!(test_shape_cache_root(&cache, 3), (b, a));
    assert_eq!(shape_cache_get(&cache, 4), 0);
}

#[test]
fn a_null_keys_array_is_cached_without_an_id() {
    let mut heap = Heap::new();
    let mut cache = ShapeCache::new();
    let mut shapes = ShapeTable::new();
    let mut ids = ShapeIds::new();
    let mut gc = GcLog::new();
    shape_cache_insert(&mut cache, &mut heap, &mut shapes, &mut ids, &mut gc, 8, 0);
    assert_eq!(
        shape_cache_get_with_id(&cache, 8),
        CachedShape { keys_array: 0, runtime_shape_id: 0 }
    );
    assert!(shapes.entries.is_empty());
}

#[test]
fn shape_cache_roots_are_marked_and_rewritten() {
    let mut cache = ShapeCache::new();
    let mut gc = GcLog::new();
    test_seed_shape_cache_root(&mut cache, &mut gc, 5, 0x5000);
    assert_eq!(test_shape_cache_root(&cache, 5), (0x5000, 0x5000));
    // Once for the direct-mapped entry, once for the map.
    let bits = JSValue::pointer(0x5000).bits();
    assert_eq!(scan_shape_cache_roots(&mut cache), vec![bits, bits]);
    assert_eq!(test_shape_cache_root(&cache, 5), (0x5000, 0x5000));

    let moves: HashMap<usize, usize> = [(0x5000, 0x6000)].into_iter().collect();
    let mut visitor = RuntimeRootVisitor::for_rewrite(moves);
    scan_shape_cache_roots_mut(&mut cache, &mut visitor);
    assert!(visitor.marked.is_empty());
    assert_eq!(test_shape_cache_root(&cache, 5), (0x6000, 0x6000));

    // Seeding again leaves only the new entry in the map.
    test_seed_shape_cache_root(&mut cache, &mut gc, 6, 0x7000);
    assert_eq!(test_shape_cache_root(&cache, 5), (0x6000, 0));
    assert_eq!(test_shape_cache_root(&cache, 6), (0x7000, 0x7000));
}

#[test]
fn edges_are_spread_over_the_cache() {
    assert_eq!(transition_cache_slot(0, 0), 0);
    // The alignment bits do not count.
    assert_eq!(transition_cache_slot(7, 7), 0);
    let a = 0x9E37_79B9_7F4A_7C15u64;
    let b = 0xC6BC_2796_92B5_C323u64;
    assert_eq!(transition_cache_slot(8, 0), (a % 16384) as usize);
    assert_eq!(transition_cache_slot(0, 8), (b % 16384) as usize);
    assert_eq!(
        transition_cache_slot(16, 24),
        ((a.wrapping_mul(2) ^ b.wrapping_mul(3)) % 16384) as usize
    );
}

#[test]
fn an_added_edge_is_found() {
    let mut heap = Heap::new();
    let mut cache = TransitionCache::new();
    let mut gc = GcLog::new();
    let x = string(&mut heap, "x");
    let y = string(&mut heap, "y");
    let prev = list(&mut heap, &[x]);
    let next = list(&mut heap, &[x, y]);
    transition_cache_insert(&mut cache, &mut heap, &mut gc, prev, y, next, 1);
    assert_eq!(gc.events, vec![GcEvent::RootStore { addr: next }]);
    // A shallow target is shared at once.
    assert!(is_shared(&heap, next));
    let slot = transition_cache_slot(prev, y);
    assert_eq!(
        cache.entries[slot],
        TransitionEntry {
            prev_keys: prev,
            key_ptr: y,
            next_keys: next,
            slot_idx: 1,
            target_len: 2
        }
    );
    assert_eq!(transition_cache_lookup(&cache, &mut heap, prev, y), Some((next, 1)));
    // Another source or key is another edge.
    assert_eq!(transition_cache_lookup(&cache, &mut heap, next, y), None);
    assert_eq!(transition_cache_lookup(&cache, &mut heap, prev, x), None);
}

#[test]
fn edges_without_a_target_are_not_kept() {
    let mut heap = Heap::new();
    let mut cache = TransitionCache::new();
    let mut gc = GcLog::new();
    transition_cache_insert(&mut cache, &mut heap, &mut gc, 8, 16, 0, 0);
    assert!(gc.events.is_empty());
    assert!(cache.entries.iter().all(|e| e.next_keys == 0));
}

#[test]
fn a_stale_edge_is_not_believed() {
    let mut heap = Heap::new();
    let mut cache = TransitionCache::new();
    let mut gc = GcLog::new();
    let x = string(&mut heap, "x");
    let y = string(&mut heap, "y");
    // The target has another key at the slot.
    let wrong = list(&mut heap, &[x]);
    transition_cache_insert(&mut cache, &mut heap, &mut gc, 0, y, wrong, 0);
    assert_eq!(transition_cache_lookup(&cache, &mut heap, 0, y), None);
    // The target is longer than the edge says.
    let long = list(&mut heap, &[y, x]);
    transition_cache_insert(&mut cache, &mut heap, &mut gc, 0, y, long, 0);
    assert_eq!(transition_cache_lookup(&cache, &mut heap, 0, y), None);
    // The target is no array.
    transition_cache_insert(&mut cache, &mut heap, &mut gc, 0, y, x, 0);
    assert_eq!(transition_cache_lookup(&cache, &mut heap, 0, y), None);
    assert!(!transition_edge_places_key(&heap, x, 0, y));
    assert!(!transition_edge_places_key(&heap, 0, 0, y));
    assert!(!transition_edge_places_key(&heap, long, u32::MAX, y));
    assert!(!transition_edge_places_key(&heap, wrong, 0, 0));
    assert!(transition_edge_places_key(&heap, wrong, 0, x));
}

#[test]
fn deep_targets_are_shared_when_they_are_reused() {
    let mut heap = Heap::new();
    let mut cache = TransitionCache::new();
    let mut gc = GcLog::new();
    let strings: Vec<usize> = (0..65).map(|i| string(&mut heap, &format!("k{i}"))).collect();
    let prev = list(&mut heap, &strings[..64]);
    let next = list(&mut heap, &strings);
    transition_cache_insert(&mut cache, &mut heap, &mut gc, prev, strings[64], next, 64);
    assert!(!is_shared(&heap, next));
    assert_eq!(
        transition_cache_lookup(&cache, &mut heap, prev, strings[64]),
        Some((next, 64))
    );
    assert!(is_shared(&heap, next));
}

#[test]
fn only_arrays_can_be_shared() {
    let mut heap = Heap::new();
    let x = string(&mut heap, "x");
    let keys = list(&mut heap, &[x]);
    assert!(!transition_cache_stamp_shape_shared(&mut heap, x));
    assert!(!is_shared(&heap, x));
    assert!(!transition_cache_stamp_shape_shared(&mut heap, 0));
    assert!(transition_cache_stamp_shape_shared(&mut heap, keys));
    assert!(is_shared(&heap, keys));
}

#[test]
fn transition_targets_are_marked() {
    let mut cache = TransitionCache::new();
    let mut gc = GcLog::new();
    test_seed_transition_cache_root(&mut cache, &mut gc, 0x5000);
    assert_eq!(test_transition_cache_root(&cache), 0x5000);
    assert_eq!(
        scan_transition_cache_roots(&mut cache),
        vec![JSValue::pointer(0x5000).bits()]
    );
    test_clear_transition_cache_root(&mut cache);
    assert_eq!(test_transition_cache_root(&cache), 0);
    assert_eq!(cache.entries.len(), TRANSITION_CACHE_SIZE);
    assert!(scan_transition_cache_roots(&mut cache).is_empty());
}

#[test]
fn edges_with_moved_ends_are_forgotten() {
    let mut cache = TransitionCache::new();
    let edge = TransitionEntry {
        prev_keys: 0x1000,
        key_ptr: 0x2000,
        next_keys: 0x3000,
        slot_idx: 4,
        target_len: 5,
    };
    cache.entries[1] = edge;
    cache.entries[2] = TransitionEntry { prev_keys: 0x9000, ..edge };
    cache.entries[3] = TransitionEntry { key_ptr: 0x9000, ..edge };
    let moves: HashMap<usize, usize> = [(0x9000, 0xA000), (0x3000, 0x4000)].into_iter().collect();
    let mut visitor = RuntimeRootVisitor::for_rewrite(moves);
    scan_transition_cache_roots_mut(&mut cache, &mut visitor);
    assert_eq!(cache.entries[1], TransitionEntry { next_keys: 0x4000, ..edge });
    let free = TransitionEntry {
        prev_keys: 0,
        key_ptr: 0,
        next_keys: 0,
        slot_idx: 0,
        target_len: 0,
    };
    assert_eq!(cache.entries[2], free);
    assert_eq!(cache.entries[3], free);
}
