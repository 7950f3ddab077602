use std::collections::HashMap;

use perry_object::gc::{GcEvent, GcLog, RuntimeRootVisitor};
use perry_object::heap::Heap;
use perry_object::learned_inline::{
    learned_inline_enabled, learned_inline_field_count, note_learned_inline_fields,
    LearnedInlineTable,
};
use perry_object::object_ops::js_object_alloc;
use perry_object::overflow::{
    clear_overflow_for_ptr, debug_overflow_entry_len, merge_overflow_fields, overflow_fields_is_empty,
    overflow_fields_owner_moved, overflow_get, overflow_set, scan_overflow_fields_roots,
    scan_overflow_fields_roots_mut, test_clear_overflow_fields_root, test_overflow_field_bits,
    test_overflow_fields_root, test_seed_overflow_fields_root, test_seed_overflow_fields_vec,
    visit_overflow_field_slots_mut, OverflowTable,
};
use perry_object::runtime::ObjectRuntime;
use perry_object::value::{JSValue, TAG_UNDEFINED};

fn object(class_id: u32) -> (ObjectRuntime, usize) {
    let mut rt = ObjectRuntime::new();
    let obj = js_object_alloc(&mut rt, class_id, 0);
    (rt, obj)
}

fn set(
    table: &mut OverflowTable,
    heap: &Heap,
    learned: &mut LearnedInlineTable,
    obj: usize,
    index: usize,
    bits: u64,
) -> Vec<GcEvent> {
    let mut gc = GcLog::new();
    overflow_set(table, heap, learned, &mut gc, obj, index, bits);
    gc.events
}

#[test]
fn a_written_field_reads_back() {
    let (rt, obj) = object(12);
    let mut table = OverflowTable::new();
    let mut learned = LearnedInlineTable::new();
    assert!(overflow_fields_is_empty(&table));
    let events = set(&mut table, &rt.heap, &mut learned, obj, 9, 77);
    assert_eq!(
        events,
        vec![
            GcEvent::LayoutNote { owner: obj, index: 9, bits: 77 },
            GcEvent::ExternalSlotBarrier { owner: obj, index: 9, bits: 77 },
        ]
    );
    assert!(!overflow_fields_is_empty(&table));
    assert_eq!(overflow_get(&table, obj, 9), Some(77));
    // What was never written is absent, padding and beyond.
    assert_eq!(overflow_get(&table, obj, 3), None);
    assert_eq!(overflow_get(&table, obj, 10), None);
    assert_eq!(overflow_get(&table, obj + 8, 9), None);
    assert_eq!(debug_overflow_entry_len(&table, obj), Some(10));
    assert_eq!(test_overflow_field_bits(&table, obj, 3), TAG_UNDEFINED);
    // The class has learned its width.
    assert_eq!(learned_inline_field_count(&learned, true, 12), 10);

    set(&mut table, &rt.heap, &mut learned, obj, 8, 5);
    set(&mut table, &rt.heap, &mut learned, obj, 9, TAG_UNDEFINED);
    assert_eq!(overflow_get(&table, obj, 8), Some(5));
    assert_eq!(overflow_get(&table, obj, 9), None);
}

#[test]
fn a_freed_owner_leaves_nothing_behind() {
    let mut table = OverflowTable::new();
    test_seed_overflow_fields_vec(&mut table, 0x1000, vec![1, 2]);
    test_seed_overflow_fields_vec(&mut table, 0x2000, vec![3]);
    table.last = 0x1000;
    clear_overflow_for_ptr(&mut table, 0x2000);
    assert_eq!(table.last, 0x1000);
    clear_overflow_for_ptr(&mut table, 0x1000);
    assert_eq!(table.last, 0);
    assert_eq!(overflow_get(&table, 0x1000, 0), None);
    assert!(overflow_fields_is_empty(&table));
}

#[test]
fn merged_fields_prefer_what_was_moved() {
    let mut owner = vec![1, 2, TAG_UNDEFINED];
    merge_overflow_fields(&mut owner, vec![TAG_UNDEFINED, 20, 30, 40]);
    assert_eq!(owner, vec![1, 20, 30, 40]);
    merge_overflow_fields(&mut owner, vec![9]);
    assert_eq!(owner, vec![9, 20, 30, 40]);
}

#[test]
fn fields_follow_a_moved_owner() {
    let mut table = OverflowTable::new();
    test_seed_overflow_fields_vec(&mut table, 0x1000, vec![1, TAG_UNDEFINED]);
    test_seed_overflow_fields_vec(&mut table, 0x2000, vec![7, 8]);
    table.last = 0x1000;
    overflow_fields_owner_moved(&mut table, 0x1000, 0x1000);
    overflow_fields_owner_moved(&mut table, 0x1000, 0);
    overflow_fields_owner_moved(&mut table, 0, 0x1000);
    assert_eq!(table.last, 0x1000);
    overflow_fields_owner_moved(&mut table, 0x1000, 0x3000);
    assert_eq!(overflow_get(&table, 0x3000, 0), Some(1));
    assert_eq!(overflow_get(&table, 0x1000, 0), None);
    assert_eq!(table.last, 0);
    overflow_fields_owner_moved(&mut table, 0x3000, 0x2000);
    assert_eq!(overflow_get(&table, 0x2000, 0), Some(1));
    assert_eq!(overflow_get(&table, 0x2000, 1), Some(8));
}

#[test]
fn every_slot_is_visited() {
    let mut table = OverflowTable::new();
    let child = JSValue::pointer(0x5000).bits();
    let text = JSValue::string(0x6000).bits();
    let words = vec![text, 1, child, text];
    test_seed_overflow_fields_vec(&mut table, 0x1000, words.clone());
    test_seed_overflow_fields_vec(&mut table, 0x3000, vec![child]);
    let mut visitor = RuntimeRootVisitor::for_copy();
    visit_overflow_field_slots_mut(&mut table, 0x1000, &mut visitor);
    assert_eq!(visitor.marked, vec![text, child, text]);
    assert_eq!(table.fields[&0x1000], words);
    visit_overflow_field_slots_mut(&mut table, 0, &mut visitor);
    visit_overflow_field_slots_mut(&mut table, 0x2000, &mut visitor);
    assert_eq!(visitor.marked.len(), 3);

    // A chain of moves: each word follows one step.
    let moves: HashMap<usize, usize> =
        [(0x5000, 0x6000), (0x6000, 0x7000)].into_iter().collect();
    let mut visitor = RuntimeRootVisitor::for_rewrite(moves);
    visit_overflow_field_slots_mut(&mut table, 0x1000, &mut visitor);
    let moved = JSValue::string(0x7000).bits();
    let there = JSValue::pointer(0x6000).bits();
    assert_eq!(table.fields[&0x1000], vec![moved, 1, there, moved]);
    assert_eq!(table.fields[&0x3000], vec![child]);
}

#[test]
fn overflow_roots_are_marked_and_rewritten() {
    let child = JSValue::pointer(0x5000).bits();
    let text = JSValue::string(0x6000).bits();
    let mut table = OverflowTable::new();
    test_seed_overflow_fields_vec(&mut table, 0x1000, vec![TAG_UNDEFINED, child, 3, text]);
    table.last = 0x1000;
    assert_eq!(scan_overflow_fields_roots(&mut table), vec![child, text]);
    assert_eq!(table.last, 0x1000);

    let moves: HashMap<usize, usize> =
        [(0x1000, 0x1100), (0x5000, 0x5500)].into_iter().collect();
    let mut visitor = RuntimeRootVisitor::for_rewrite(moves);
    scan_overflow_fields_roots_mut(&mut table, &mut visitor);
    assert_eq!(overflow_get(&table, 0x1100, 1), Some(JSValue::pointer(0x5500).bits()));
    assert_eq!(overflow_get(&table, 0x1100, 3), Some(text));
    assert_eq!(overflow_get(&table, 0x1000, 1), None);
    assert_eq!(table.last, 0);
}

#[test]
fn seeded_fields_are_the_only_ones() {
    let mut table = OverflowTable::new();
    let mut gc = GcLog::new();
    assert_eq!(test_overflow_fields_root(&table), (0, 0));
    test_seed_overflow_fields_vec(&mut table, 0x1000, vec![1]);
    test_seed_overflow_fields_root(&mut table, &mut gc, 0x2000, 9);
    assert_eq!(gc.events, vec![GcEvent::LayoutNote { owner: 0x2000, index: 0, bits: 9 }]);
    assert_eq!(test_overflow_fields_root(&table), (0x2000, 9));
    assert_eq!(debug_overflow_entry_len(&table, 0x1000), None);
    assert_eq!(test_overflow_field_bits(&table, 0x2000, 0), 9);
    assert_eq!(test_overflow_field_bits(&table, 0x2000, 1), 0);
    assert_eq!(test_overflow_field_bits(&table, 0x1000, 0), 0);
    test_clear_overflow_fields_root(&mut table);
    assert!(overflow_fields_is_empty(&table));
    test_seed_overflow_fields_vec(&mut table, 0x3000, vec![]);
    assert_eq!(test_overflow_fields_root(&table), (0x3000, 0));
}

#[test]
fn widths_are_learned_up_to_a_limit() {
    let mut learned = LearnedInlineTable::new();
    note_learned_inline_fields(&mut learned, 7, 23);
    assert_eq!(learned_inline_field_count(&learned, true, 7), 23);
    note_learned_inline_fields(&mut learned, 7, 10);
    assert_eq!(learned_inline_field_count(&learned, true, 7), 23);
    note_learned_inline_fields(&mut learned, 7, 65);
    assert_eq!(learned_inline_field_count(&learned, true, 7), 23);
    note_learned_inline_fields(&mut learned, 7, 64);
    assert_eq!(learned_inline_field_count(&learned, true, 7), 64);
    assert_eq!(learned_inline_field_count(&learned, false, 7), 0);
    assert_eq!(learned_inline_field_count(&learned, true, 8), 0);
    note_learned_inline_fields(&mut learned, 0, 9);
    assert_eq!(learned_inline_field_count(&learned, true, 0), 0);
    // Ids 1024 apart collide; the later one takes the entry.
    note_learned_inline_fields(&mut learned, 7 + 1024, 5);
    assert_eq!(learned_inline_field_count(&learned, true, 7 + 1024), 5);
    assert_eq!(learned_inline_field_count(&learned, true, 7), 0);
}

#[test]
fn the_setting_switches_learning_off() {
    assert!(learned_inline_enabled(None));
    assert!(learned_inline_enabled(Some(b"1")));
    assert!(learned_inline_enabled(Some(b"")));
    assert!(!learned_inline_enabled(Some(b"0")));
    assert!(!learned_inline_enabled(Some(b"off")));
    assert!(!learned_inline_enabled(Some(b"false")));
    assert!(learned_inline_enabled(Some(b"False")));
}
