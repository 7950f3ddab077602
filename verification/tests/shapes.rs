use std::collections::HashMap;

use perry_object::gc::RuntimeRootVisitor;
use perry_object::heap::{Heap, ObjectHeader};
use perry_object::key_lists::{array_from, extend_keys};
use perry_object::keys::{js_array_length, js_string_from_bytes, key_bytes_hash};
use perry_object::keys_index::{
    keys_index_insert, keys_index_lookup, test_keys_index_entry_exists, test_seed_keys_index_entry,
};
use perry_object::literals::js_object_alloc_with_shape;
use perry_object::object_ops::{
    js_object_alloc, js_object_get_field_by_name, js_object_set_field_by_name,
    test_object_shape_token,
};
use perry_object::runtime::ObjectRuntime;
use perry_object::shapes::{
    alloc_shape_id, index_range, is_shape_id, is_shape_id_token, prune_dead_shape_keys,
    scan_shape_table_rekey_mut, shape_drop, shape_id_for_keys_ensure, shape_keys_grown,
    shape_note_append, shape_note_hit, shape_slot_lookup, test_seed_shape_entry,
    test_shape_entry_exists, test_shape_id_for_keys, Shape, ShapeIds, ShapeTable, PIC_ID_TOKEN_BIT,
    SHAPE_ID_BASE, SHAPE_ID_END,
};
use perry_object::value::JSValue;

fn number(v: f64) -> JSValue {
    JSValue::from_bits(v.to_bits())
}

fn key(rt: &mut ObjectRuntime, name: &str) -> usize {
    js_string_from_bytes(&mut rt.heap, name.as_bytes())
}

fn header(rt: &ObjectRuntime, obj: usize) -> ObjectHeader {
    rt.heap.object(obj).unwrap().header
}

/// A keys array with the given names.
fn keys_of(heap: &mut Heap, names: &[String]) -> usize {
    let mut list: Vec<u64> = Vec::new();
    for name in names {
        let s = js_string_from_bytes(heap, name.as_bytes());
        list.push(JSValue::string(s).bits());
    }
    array_from(heap, &list, names.len() as u32 + 8)
}

fn numbered(n: usize) -> Vec<String> {
    (0..n).map(|i| format!("key_{i}")).collect()
}

#[test]
fn shape_ids_are_range_disjoint_and_stable() {
    let mut table = ShapeTable::new();
    let mut ids = ShapeIds::new();
    let a: usize = 0xC3C0_0000_0000_1000;
    let b: usize = 0xC3C0_0000_0000_2000;
    let ida = shape_id_for_keys_ensure(&mut table, &mut ids, a, 4);
    let idb = shape_id_for_keys_ensure(&mut table, &mut ids, b, 4);
    assert!(is_shape_id(ida) && is_shape_id(idb));
    assert_ne!(ida, idb);
    assert_eq!(shape_id_for_keys_ensure(&mut table, &mut ids, a, 4), ida);
    // Real class-id space must never classify as a shape id.
    assert!(!is_shape_id(0));
    assert!(!is_shape_id(1));
    assert!(!is_shape_id(0x7FFF_FF30));
    assert!(!is_shape_id(0xFFFF_0005));
    shape_drop(&mut table, a);
    shape_drop(&mut table, b);
}

#[test]
fn plain_object_stamp_lifecycle() {
    let mut rt = ObjectRuntime::new();
    let mut ids = ShapeIds::new();
    let obj = js_object_alloc(&mut rt, 0, 8);
    for name in ["c3c_a", "c3c_b", "c3c_c"] {
        let k = key(&mut rt, name);
        js_object_set_field_by_name(&mut rt, &mut ids, obj, k, number(1.0));
    }
    assert_eq!(header(&rt, obj).class_id, 0, "test premise: plain object");
    let k = key(&mut rt, "c3c_b");
    let _ = js_object_get_field_by_name(&mut rt, &mut ids, obj, k);
    let stamp = header(&rt, obj).parent_class_id;
    assert!(
        is_shape_id(stamp),
        "read resolution must stamp a shape id, got {stamp:#x}"
    );

    let k = key(&mut rt, "c3c_d");
    js_object_set_field_by_name(&mut rt, &mut ids, obj, k, number(2.0));
    let k = key(&mut rt, "c3c_e");
    js_object_set_field_by_name(&mut rt, &mut ids, obj, k, number(3.0));
    let stamp2 = header(&rt, obj).parent_class_id;
    if stamp2 != 0 {
        assert!(is_shape_id(stamp2));
        let keys = header(&rt, obj).keys_array;
        let count = js_array_length(&rt.heap, keys);
        let cur = shape_id_for_keys_ensure(&mut rt.shapes, &mut ids, keys, count);
        assert_eq!(
            stamp2, cur,
            "a surviving stamp must equal the CURRENT keys' id"
        );
    }

    // Reads still resolve correctly through the id-keyed cache.
    let k = key(&mut rt, "c3c_d");
    let v = js_object_get_field_by_name(&mut rt, &mut ids, obj, k);
    assert_eq!(f64::from_bits(v.bits()), 2.0);
}

#[test]
fn alloc_with_shape_birth_stamps_shared_id() {
    let mut rt = ObjectRuntime::new();
    let mut ids = ShapeIds::new();
    let packed = b"m6804_a\0m6804_b\0m6804_c";
    let a = js_object_alloc_with_shape(&mut rt, &mut ids, 0x0C3C_6804, 3, packed);
    let b = js_object_alloc_with_shape(&mut rt, &mut ids, 0x0C3C_6804, 3, packed);
    let stamp_a = header(&rt, a).parent_class_id;
    let stamp_b = header(&rt, b).parent_class_id;
    assert!(
        is_shape_id(stamp_a),
        "newborn literal must carry a runtime ShapeId, got {stamp_a:#x}"
    );
    assert_eq!(
        stamp_a, stamp_b,
        "siblings of one literal shape must share one id"
    );
    assert_eq!(
        header(&rt, a).keys_array,
        header(&rt, b).keys_array,
        "test premise: shared keys"
    );
}

#[test]
fn object_shape_token_self_heals_to_shared_id() {
    let mut rt = ObjectRuntime::new();
    let mut ids = ShapeIds::new();
    let packed = b"m6804_x\0m6804_y";
    let obj = js_object_alloc_with_shape(&mut rt, &mut ids, 0x0C3C_6805, 2, packed);
    let birth_stamp = header(&rt, obj).parent_class_id;
    assert!(is_shape_id(birth_stamp), "test premise: birth-stamped");

    let cleared = ObjectHeader { parent_class_id: 0, ..header(&rt, obj) };
    rt.heap.set_object_header(obj, cleared);
    let token = test_object_shape_token(&mut rt, &mut ids, obj);
    assert_eq!(
        token, birth_stamp as usize,
        "self-healed token must equal the shape's canonical id"
    );
    assert_eq!(
        header(&rt, obj).parent_class_id,
        birth_stamp,
        "observation must re-stamp the object"
    );
}

#[test]
fn fresh_dynamic_shape_birth_stamps() {
    let mut rt = ObjectRuntime::new();
    let mut ids = ShapeIds::new();
    let obj = js_object_alloc(&mut rt, 0, 8);
    let key = js_string_from_bytes(&mut rt.heap, b"m6804_first");
    assert_eq!(rt.heap.string(key).unwrap().bytes.len(), 11);
    js_object_set_field_by_name(&mut rt, &mut ids, obj, key, number(42.0));
    let stamp = header(&rt, obj).parent_class_id;
    assert!(
        is_shape_id(stamp),
        "first-key birth must stamp the new shape, got {stamp:#x}"
    );
}

#[test]
fn ids_run_out_without_wrapping() {
    let mut ids = ShapeIds { next: SHAPE_ID_END - 1 };
    assert_eq!(alloc_shape_id(&mut ids), SHAPE_ID_END - 1);
    assert_eq!(alloc_shape_id(&mut ids), 0);
    assert_eq!(alloc_shape_id(&mut ids), 0);
    assert_eq!(ids.next, SHAPE_ID_END);

    let mut table = ShapeTable::new();
    assert_eq!(shape_id_for_keys_ensure(&mut table, &mut ids, 0x1000, 1), 0);
    assert_eq!(test_shape_id_for_keys(&table, 0x1000), Some(0));
}

#[test]
fn null_keys_have_no_record() {
    let mut table = ShapeTable::new();
    let mut ids = ShapeIds::new();
    assert_eq!(shape_id_for_keys_ensure(&mut table, &mut ids, 0, 4), 0);
    assert!(!test_shape_entry_exists(&table, 0));
    assert_eq!(ids.next, SHAPE_ID_BASE);
}

#[test]
fn runtimes_of_one_process_never_share_an_id() {
    let mut ids = ShapeIds::new();
    let mut first = ObjectRuntime::new();
    let mut other = ObjectRuntime::new();
    let a = js_object_alloc_with_shape(&mut first, &mut ids, 9, 1, b"x");
    let b = js_object_alloc_with_shape(&mut other, &mut ids, 9, 1, b"x");
    let c = js_object_alloc_with_shape(&mut first, &mut ids, 10, 1, b"y");
    let stamps = [
        header(&first, a).parent_class_id,
        header(&other, b).parent_class_id,
        header(&first, c).parent_class_id,
    ];
    assert_eq!(stamps, [SHAPE_ID_BASE, SHAPE_ID_BASE + 1, SHAPE_ID_BASE + 2]);
    // Both runtimes use the same addresses for their keys.
    assert_eq!(header(&first, a).keys_array, header(&other, b).keys_array);
}

#[test]
fn a_lookup_gives_the_first_of_equal_keys() {
    let mut heap = Heap::new();
    let names: Vec<String> = ["a", "b", "a"].iter().map(|n| n.to_string()).collect();
    let keys = keys_of(&mut heap, &names);
    let mut table = ShapeTable::new();
    let mut ids = ShapeIds::new();
    let hash = key_bytes_hash(b"a");
    assert_eq!(
        shape_slot_lookup(&mut table, &mut ids, &heap, keys, b"a", hash, 3, true),
        Some(0)
    );
}

#[test]
fn wide_tokens_are_not_taken_for_ids() {
    assert!(is_shape_id_token(0x8000_0000));
    assert!(is_shape_id_token(0xBFFF_FFFF));
    assert!(!is_shape_id_token(0xC000_0000));
    assert!(!is_shape_id_token(0x0001_8000_0000));
    assert_eq!(PIC_ID_TOKEN_BIT, 1u64 << 62);
    assert!((0xBFFF_FFFFu64 | PIC_ID_TOKEN_BIT) >= 1u64 << 48);
}

#[test]
fn lookup_builds_validates_and_catches_up() {
    let mut heap = Heap::new();
    let mut table = ShapeTable::new();
    let mut ids = ShapeIds::new();
    let names = numbered(40);
    let keys = keys_of(&mut heap, &names);
    let hash = key_bytes_hash(b"key_17");

    // Nothing is built unless the caller asks for it.
    assert_eq!(
        shape_slot_lookup(&mut table, &mut ids, &heap, keys, b"key_17", hash, 40, false),
        None
    );
    assert!(!test_shape_entry_exists(&table, keys));
    assert_eq!(
        shape_slot_lookup(&mut table, &mut ids, &heap, keys, b"key_17", hash, 40, true),
        Some(17)
    );
    assert_eq!(test_shape_id_for_keys(&table, keys), Some(SHAPE_ID_BASE));
    // A record that exists is read in any case.
    assert_eq!(
        shape_slot_lookup(&mut table, &mut ids, &heap, keys, b"key_17", hash, 40, false),
        Some(17)
    );
    // The hash leads to the slot, but the bytes decide.
    assert_eq!(
        shape_slot_lookup(&mut table, &mut ids, &heap, keys, b"other", hash, 40, true),
        None
    );

    let s = js_string_from_bytes(&mut heap, b"late");
    let grown = extend_keys(&mut heap, &mut table, keys, JSValue::string(s).bits());
    assert_eq!(grown, keys);
    let late = key_bytes_hash(b"late");
    assert_eq!(
        shape_slot_lookup(&mut table, &mut ids, &heap, keys, b"late", late, 41, true),
        Some(40)
    );
}

#[test]
fn shrunk_arrays_drop_their_record() {
    let mut heap = Heap::new();
    let mut table = ShapeTable::new();
    let mut ids = ShapeIds::new();
    let keys = keys_of(&mut heap, &numbered(4));
    let hash = key_bytes_hash(b"key_1");
    assert_eq!(
        shape_slot_lookup(&mut table, &mut ids, &heap, keys, b"key_1", hash, 4, true),
        Some(1)
    );
    assert_eq!(
        shape_slot_lookup(&mut table, &mut ids, &heap, keys, b"key_1", hash, 3, true),
        None
    );
    assert!(!test_shape_entry_exists(&table, keys));
}

#[test]
fn colliding_candidates_are_told_apart_by_bytes() {
    let mut heap = Heap::new();
    let mut table = ShapeTable::new();
    let mut ids = ShapeIds::new();
    let keys = keys_of(&mut heap, &numbered(3));
    let mut shape = Shape { indexed_len: 0, shape_id: 7, slots: HashMap::new() };
    index_range(&mut shape, &heap, keys, 3);
    assert_eq!(shape.indexed_len, 3);
    let hash = key_bytes_hash(b"key_2");
    assert_eq!(shape.slots.get(&hash), Some(&vec![2]));
    // Two wrong candidates in front of the right one.
    shape.slots.insert(hash, vec![9, 0, 2]);
    table.entries.insert(keys, shape);
    assert_eq!(
        shape_slot_lookup(&mut table, &mut ids, &heap, keys, b"key_2", hash, 3, false),
        Some(2)
    );
}

#[test]
fn appends_and_hits_are_noted_on_existing_records_only() {
    let mut table = ShapeTable::new();
    let mut ids = ShapeIds::new();
    shape_note_append(&mut table, 0x4000, 1, 11, 0);
    shape_note_hit(&mut table, 0x4000, 11, 0);
    assert!(!test_shape_entry_exists(&table, 0x4000));

    test_seed_shape_entry(&mut table, &mut ids, 0x4000);
    shape_note_append(&mut table, 0x4000, 2, 11, 1);
    assert_eq!(table.entries[&0x4000].indexed_len, 0);
    shape_note_append(&mut table, 0x4000, 1, 11, 0);
    assert_eq!(table.entries[&0x4000].indexed_len, 1);
    shape_note_hit(&mut table, 0x4000, 11, 5);
    assert_eq!(table.entries[&0x4000].slots[&11], vec![0, 5]);
}

#[test]
fn grown_keys_take_their_record_along() {
    let mut table = ShapeTable::new();
    let mut ids = ShapeIds::new();
    let id = shape_id_for_keys_ensure(&mut table, &mut ids, 0x1000, 4);
    shape_keys_grown(&mut table, 0x1000, 0x2000);
    assert_eq!(test_shape_id_for_keys(&table, 0x1000), None);
    assert_eq!(test_shape_id_for_keys(&table, 0x2000), Some(id));
    shape_keys_grown(&mut table, 0x2000, 0);
    shape_keys_grown(&mut table, 0, 0x3000);
    assert_eq!(test_shape_id_for_keys(&table, 0x2000), Some(id));
    assert_eq!(test_shape_id_for_keys(&table, 0x3000), None);
}

#[test]
fn dead_records_are_pruned() {
    let mut table = ShapeTable::new();
    let mut ids = ShapeIds::new();
    for a in [0x1000usize, 0x2000, 0x3000] {
        shape_id_for_keys_ensure(&mut table, &mut ids, a, 1);
    }
    prune_dead_shape_keys(&mut table, |a: usize| {
        assert!([0x1000, 0x2000, 0x3000].contains(&a));
        a == 0x2000
    });
    assert!(test_shape_entry_exists(&table, 0x1000));
    assert!(!test_shape_entry_exists(&table, 0x2000));
    assert!(test_shape_entry_exists(&table, 0x3000));
}

#[test]
fn records_follow_moved_arrays_in_the_rewrite_phase_only() {
    let mut table = ShapeTable::new();
    let mut ids = ShapeIds::new();
    let a = shape_id_for_keys_ensure(&mut table, &mut ids, 0x1000, 1);
    let b = shape_id_for_keys_ensure(&mut table, &mut ids, 0x2000, 1);

    let mut marking = RuntimeRootVisitor::for_copy();
    scan_shape_table_rekey_mut(&mut table, &mut marking);
    assert!(marking.marked.is_empty());
    assert_eq!(test_shape_id_for_keys(&table, 0x1000), Some(a));

    let moves: HashMap<usize, usize> = [(0x1000, 0x9000)].into_iter().collect();
    let mut rewriting = RuntimeRootVisitor::for_rewrite(moves);
    scan_shape_table_rekey_mut(&mut table, &mut rewriting);
    assert_eq!(test_shape_id_for_keys(&table, 0x1000), None);
    assert_eq!(test_shape_id_for_keys(&table, 0x9000), Some(a));
    assert_eq!(test_shape_id_for_keys(&table, 0x2000), Some(b));
}

#[test]
fn short_key_lists_are_not_indexed() {
    let mut heap = Heap::new();
    let mut table = ShapeTable::new();
    let mut ids = ShapeIds::new();
    let few = keys_of(&mut heap, &numbered(31));
    let many = keys_of(&mut heap, &numbered(32));
    let hash = key_bytes_hash(b"key_3");
    assert_eq!(keys_index_lookup(&mut table, &mut ids, &heap, few, b"key_3", hash), None);
    assert!(!test_keys_index_entry_exists(&table, few));
    assert_eq!(
        keys_index_lookup(&mut table, &mut ids, &heap, many, b"key_3", hash),
        Some(3)
    );
    assert!(test_keys_index_entry_exists(&table, many));

    test_seed_keys_index_entry(&mut table, &mut ids, 0x7000);
    keys_index_insert(&mut table, 0x7000, 1, 5, 0);
    assert_eq!(table.entries[&0x7000].indexed_len, 0);
    table.entries.get_mut(&0x7000).unwrap().indexed_len = 31;
    keys_index_insert(&mut table, 0x7000, 32, 5, 31);
    assert_eq!(table.entries[&0x7000].indexed_len, 32);
}
