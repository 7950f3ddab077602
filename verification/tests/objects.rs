use perry_object::gc::{GcEvent, GcLog};
use perry_object::heap::{
    GcHeader, GcType, Heap, HeapCell, LayoutState, ObjectHeader, ObjectMeta, OBJECT_HEADER_SIZE,
};
use perry_object::key_lists::array_from;
use perry_object::keys::js_string_from_bytes;
use perry_object::literals::js_object_alloc_with_shape;
use perry_object::object_ops::{
    js_object_alloc, js_object_get_field_by_name, js_object_has_property,
    js_object_set_field_by_name, load_slot, test_object_shape_token,
};
use perry_object::object_slots::{
    gc_field_slot_range, gc_keys_array_slot, gc_object_meta_slot, mark_object_dynamic_shape_unknown,
    note_object_field_slot, object_meta_ensure, object_meta_install, rebuild_array_layout_from_slots,
    rebuild_object_field_layout, set_object_keys_array, store_object_field_slot, HeapSlotRange,
};
use perry_object::overflow::overflow_get;
use perry_object::runtime::ObjectRuntime;
use perry_object::shapes::{is_shape_id, ShapeIds, SHAPE_ID_BASE};
use perry_object::value::{JSValue, TAG_FALSE, TAG_TRUE, TAG_UNDEFINED};

fn number(v: f64) -> JSValue {
    JSValue::from_bits(v.to_bits())
}

fn key(rt: &mut ObjectRuntime, name: &str) -> usize {
    js_string_from_bytes(&mut rt.heap, name.as_bytes())
}

fn set(rt: &mut ObjectRuntime, ids: &mut ShapeIds, obj: usize, name: &str, value: f64) {
    let k = key(rt, name);
    js_object_set_field_by_name(rt, ids, obj, k, number(value));
}

fn get(rt: &mut ObjectRuntime, ids: &mut ShapeIds, obj: usize, name: &str) -> JSValue {
    let k = key(rt, name);
    js_object_get_field_by_name(rt, ids, obj, k)
}

fn header(rt: &ObjectRuntime, obj: usize) -> ObjectHeader {
    rt.heap.object(obj).unwrap().header
}

fn with_gc(heap: &mut Heap, addr: usize, change: fn(GcHeader) -> GcHeader) {
    let gc = heap.gc_header(addr).unwrap();
    heap.set_gc_header(addr, change(gc));
}

#[test]
fn a_set_property_reads_back_and_no_other_changes() {
    let mut rt = ObjectRuntime::new();
    let mut ids = ShapeIds::new();
    let a = js_object_alloc(&mut rt, 0, 0);
    let b = js_object_alloc(&mut rt, 0, 0);
    set(&mut rt, &mut ids, a, "x", 1.0);
    set(&mut rt, &mut ids, b, "x", 10.0);
    set(&mut rt, &mut ids, a, "y", 2.0);
    set(&mut rt, &mut ids, b, "z", 30.0);
    set(&mut rt, &mut ids, a, "x", 5.0);
    assert_eq!(get(&mut rt, &mut ids, a, "x"), number(5.0));
    assert_eq!(get(&mut rt, &mut ids, a, "y"), number(2.0));
    assert_eq!(get(&mut rt, &mut ids, a, "z"), JSValue::undefined());
    assert_eq!(get(&mut rt, &mut ids, b, "x"), number(10.0));
    assert_eq!(get(&mut rt, &mut ids, b, "y"), JSValue::undefined());
    assert_eq!(get(&mut rt, &mut ids, b, "z"), number(30.0));
}

#[test]
fn objects_built_alike_share_their_keys_array() {
    let mut rt = ObjectRuntime::new();
    let mut ids = ShapeIds::new();
    let a = js_object_alloc(&mut rt, 0, 8);
    let b = js_object_alloc(&mut rt, 0, 8);
    for obj in [a, b] {
        for name in ["id", "name", "age"] {
            set(&mut rt, &mut ids, obj, name, 1.0);
        }
    }
    assert_eq!(header(&rt, a).keys_array, header(&rt, b).keys_array);
    // One of them goes on alone; the other keeps its keys.
    set(&mut rt, &mut ids, a, "extra", 2.0);
    assert_ne!(header(&rt, a).keys_array, header(&rt, b).keys_array);
    assert_eq!(get(&mut rt, &mut ids, b, "extra"), JSValue::undefined());
    assert_eq!(get(&mut rt, &mut ids, a, "extra"), number(2.0));
}

#[test]
fn many_properties_go_past_the_inline_slots() {
    let mut rt = ObjectRuntime::new();
    let mut ids = ShapeIds::new();
    let obj = js_object_alloc(&mut rt, 3, 0);
    for i in 0..100 {
        set(&mut rt, &mut ids, obj, &format!("p{i}"), i as f64);
    }
    for i in 0..100 {
        assert_eq!(get(&mut rt, &mut ids, obj, &format!("p{i}")), number(i as f64));
    }
    assert_eq!(header(&rt, obj).field_count, 4);
    assert_eq!(rt.heap.object(obj).unwrap().fields[3], number(3.0).bits());
    assert_eq!(overflow_get(&rt.hot.overflow, obj, 4), Some(number(4.0).bits()));
    assert_eq!(load_slot(&rt, obj, 99), number(99.0));
    assert_eq!(load_slot(&rt, obj, 100), JSValue::undefined());
    // A second object built the same way finds its way along the edges.
    let twin = js_object_alloc(&mut rt, 3, 0);
    for i in 0..100 {
        set(&mut rt, &mut ids, twin, &format!("p{i}"), -(i as f64));
    }
    for i in 0..100 {
        assert_eq!(get(&mut rt, &mut ids, obj, &format!("p{i}")), number(i as f64));
        assert_eq!(get(&mut rt, &mut ids, twin, &format!("p{i}")), number(-(i as f64)));
    }
}

#[test]
fn sets_are_reported_last_and_leave_other_objects_alone() {
    let mut rt = ObjectRuntime::new();
    let mut ids = ShapeIds::new();
    let other = js_object_alloc(&mut rt, 0, 0);
    set(&mut rt, &mut ids, other, "a", 1.0);
    let kept = header(&rt, other);
    let obj = js_object_alloc(&mut rt, 3, 0);
    for i in 0..4 {
        set(&mut rt, &mut ids, obj, &format!("k{i}"), i as f64);
        let store = GcEvent::SlotStore {
            owner: obj,
            slot_addr: obj + 32 + 8 * i,
            index: i,
            bits: number(i as f64).bits(),
        };
        assert_eq!(rt.gc.events.last(), Some(&store));
    }
    // A field on the side.
    let before = rt.gc.events.len();
    set(&mut rt, &mut ids, obj, "k4", 4.0);
    let bits = number(4.0).bits();
    let keys = header(&rt, obj).keys_array;
    assert_eq!(
        rt.gc.events[before..].to_vec(),
        vec![
            GcEvent::SlotBarrier { owner: obj, slot_addr: obj + 16, bits: keys as u64 },
            GcEvent::RootStore { addr: keys },
            GcEvent::LayoutNote { owner: obj, index: 4, bits },
            GcEvent::ExternalSlotBarrier { owner: obj, index: 4, bits },
        ]
    );
    assert_eq!(header(&rt, other), kept);
}

#[test]
fn only_found_keys_stamp_an_object() {
    let mut rt = ObjectRuntime::new();
    let mut ids = ShapeIds::new();
    let obj = js_object_alloc(&mut rt, 0, 8);
    set(&mut rt, &mut ids, obj, "a", 1.0);
    let cleared = ObjectHeader { parent_class_id: 0, ..header(&rt, obj) };
    rt.heap.set_object_header(obj, cleared);
    let _ = get(&mut rt, &mut ids, obj, "missing");
    assert_eq!(header(&rt, obj).parent_class_id, 0);
    let _ = get(&mut rt, &mut ids, obj, "a");
    assert!(is_shape_id(header(&rt, obj).parent_class_id));
    // Instances of classes keep their parent.
    let instance = js_object_alloc(&mut rt, 9, 8);
    set(&mut rt, &mut ids, instance, "a", 1.0);
    let _ = get(&mut rt, &mut ids, instance, "a");
    assert_eq!(header(&rt, instance).parent_class_id, 0);
    let token = test_object_shape_token(&mut rt, &mut ids, instance);
    assert_eq!(token, header(&rt, instance).keys_array);
}

#[test]
fn a_newborn_object_has_undefined_slots_and_no_keys() {
    let mut rt = ObjectRuntime::new();
    let mut ids = ShapeIds::new();
    let small = js_object_alloc(&mut rt, 0, 1);
    let large = js_object_alloc(&mut rt, 5, 9);
    assert_eq!(rt.heap.object(small).unwrap().fields, vec![TAG_UNDEFINED; 4]);
    assert_eq!(rt.heap.object(large).unwrap().fields, vec![TAG_UNDEFINED; 9]);
    assert_eq!(
        header(&rt, large),
        ObjectHeader {
            object_type: 1,
            class_id: 5,
            parent_class_id: 0,
            field_count: 9,
            keys_array: 0,
            meta: 0
        }
    );
    assert_eq!(get(&mut rt, &mut ids, small, "a"), JSValue::undefined());
}

#[test]
fn literals_have_the_keys_of_their_packed_list() {
    let mut rt = ObjectRuntime::new();
    let mut ids = ShapeIds::new();
    let obj = js_object_alloc_with_shape(&mut rt, &mut ids, 77, 3, b"a\0bc\0d");
    set(&mut rt, &mut ids, obj, "bc", 4.0);
    assert_eq!(rt.heap.object(obj).unwrap().fields[1], number(4.0).bits());
    assert_eq!(get(&mut rt, &mut ids, obj, "d"), JSValue::undefined());
    assert_eq!(header(&rt, obj).parent_class_id, SHAPE_ID_BASE);
    let boxed = JSValue::pointer(obj);
    let d = JSValue::try_short_string(b"d").unwrap();
    assert_eq!(js_object_has_property(&rt, boxed, d).bits(), TAG_TRUE);
    // An empty list has no keys.
    let empty = js_object_alloc_with_shape(&mut rt, &mut ids, 78, 0, b"");
    assert_ne!(header(&rt, empty).keys_array, 0);
    assert_eq!(get(&mut rt, &mut ids, empty, ""), JSValue::undefined());
    // Nothing but objects has properties.
    assert_eq!(js_object_has_property(&rt, number(1.0), d).bits(), TAG_FALSE);
    assert_eq!(js_object_has_property(&rt, boxed, number(1.0)).bits(), TAG_FALSE);
}

#[test]
fn metadata_is_made_once() {
    let mut rt = ObjectRuntime::new();
    let mut gc = GcLog::new();
    let obj = js_object_alloc(&mut rt, 0, 0);
    assert_eq!(gc_object_meta_slot(&rt.heap, obj), None);
    let meta = object_meta_ensure(&mut rt.heap, &mut gc, obj);
    assert_eq!(
        rt.heap.meta(meta),
        Some(ObjectMeta { prototype: 0, attr_key_bits: 0, accessor_key_bits: 0 })
    );
    assert_eq!(rt.heap.gc_type(meta), Some(GcType::ObjectMeta));
    let barrier = GcEvent::SlotBarrier { owner: obj, slot_addr: obj + 24, bits: meta as u64 };
    assert_eq!(gc.events, vec![barrier]);
    assert_eq!(object_meta_ensure(&mut rt.heap, &mut gc, obj), meta);
    assert_eq!(gc.events.len(), 1);
    assert_eq!(gc_object_meta_slot(&rt.heap, obj), Some(obj + 24));
    // A record that came first stays.
    assert_eq!(object_meta_install(&mut rt.heap, &mut gc, obj, 0x9999), meta);
    assert_eq!(gc_object_meta_slot(&rt.heap, 0), None);
    let regexp = rt.heap.allocate(HeapCell::RegExp, OBJECT_HEADER_SIZE);
    assert_eq!(rt.heap.gc_type(regexp), Some(GcType::Object));
    assert_eq!(gc_object_meta_slot(&rt.heap, regexp), None);
}

#[test]
fn another_keys_array_clears_the_stamp() {
    let mut rt = ObjectRuntime::new();
    let mut ids = ShapeIds::new();
    let mut gc = GcLog::new();
    let obj = js_object_alloc(&mut rt, 0, 0);
    set(&mut rt, &mut ids, obj, "a", 1.0);
    let keys = header(&rt, obj).keys_array;
    let stamp = header(&rt, obj).parent_class_id;
    assert!(is_shape_id(stamp));
    assert_eq!(gc_keys_array_slot(&rt.heap, obj), Some(obj + 16));
    set_object_keys_array(&mut rt.heap, &mut gc, obj, keys);
    assert_eq!(header(&rt, obj).parent_class_id, stamp);
    set_object_keys_array(&mut rt.heap, &mut gc, obj, 0);
    assert_eq!(header(&rt, obj).parent_class_id, 0);
    assert_eq!(gc_keys_array_slot(&rt.heap, obj), None);
    assert_eq!(gc_keys_array_slot(&rt.heap, 0), None);
    assert_eq!(
        gc.events,
        vec![
            GcEvent::SlotBarrier { owner: obj, slot_addr: obj + 16, bits: keys as u64 },
            GcEvent::SlotBarrier { owner: obj, slot_addr: obj + 16, bits: 0 },
        ]
    );
    // The word of an instance is its parent class and stays.
    let instance = js_object_alloc(&mut rt, 4, 0);
    let h = ObjectHeader { parent_class_id: 0x8000_0001, ..header(&rt, instance) };
    rt.heap.set_object_header(instance, h);
    set_object_keys_array(&mut rt.heap, &mut gc, instance, keys);
    assert_eq!(header(&rt, instance).parent_class_id, 0x8000_0001);
}

#[test]
fn stores_report_the_address_of_their_slot() {
    let mut rt = ObjectRuntime::new();
    let mut gc = GcLog::new();
    let obj = js_object_alloc(&mut rt, 0, 0);
    store_object_field_slot(&mut rt.heap, &mut gc, obj, 2, 55);
    note_object_field_slot(&mut gc, obj, 2, 55);
    assert_eq!(rt.heap.object(obj).unwrap().fields[2], 55);
    assert_eq!(
        gc.events,
        vec![
            GcEvent::SlotStore { owner: obj, slot_addr: obj + 48, index: 2, bits: 55 },
            GcEvent::LayoutNote { owner: obj, index: 2, bits: 55 },
        ]
    );
}

#[test]
fn known_layouts_become_unknown() {
    let mut rt = ObjectRuntime::new();
    let mut gc = GcLog::new();
    let obj = js_object_alloc(&mut rt, 0, 0);
    mark_object_dynamic_shape_unknown(&rt.heap, &mut gc, 0);
    mark_object_dynamic_shape_unknown(&rt.heap, &mut gc, 0x1007);
    mark_object_dynamic_shape_unknown(&rt.heap, &mut gc, obj);
    assert!(gc.events.is_empty());
    with_gc(&mut rt.heap, obj, |gc| GcHeader { layout: LayoutState::SideMask, ..gc });
    mark_object_dynamic_shape_unknown(&rt.heap, &mut gc, obj);
    assert_eq!(gc.events, vec![GcEvent::LayoutUnknown { owner: obj }]);
    with_gc(&mut rt.heap, obj, |gc| GcHeader {
        layout: LayoutState::Unknown,
        typed_descriptor: true,
        ..gc
    });
    mark_object_dynamic_shape_unknown(&rt.heap, &mut gc, obj);
    assert_eq!(gc.events.len(), 2);
}

#[test]
fn traced_slots_are_those_of_the_field_count() {
    let mut rt = ObjectRuntime::new();
    let obj = js_object_alloc(&mut rt, 0, 6);
    assert_eq!(
        gc_field_slot_range(&rt.heap, obj),
        Some(HeapSlotRange { start: obj + 32, count: 6 })
    );
    assert_eq!(gc_field_slot_range(&rt.heap, 0), None);
    let huge = js_object_alloc(&mut rt, 0, 1_000_001);
    assert_eq!(gc_field_slot_range(&rt.heap, huge), None);
    let limit = js_object_alloc(&mut rt, 0, 1_000_000);
    assert_eq!(
        gc_field_slot_range(&rt.heap, limit),
        Some(HeapSlotRange { start: limit + 32, count: 1_000_000 })
    );
}

#[test]
fn rebuilt_layouts_report_old_slots() {
    let mut rt = ObjectRuntime::new();
    let mut gc = GcLog::new();
    let obj = js_object_alloc(&mut rt, 0, 0);
    rebuild_object_field_layout(&rt.heap, &mut gc, obj, 2);
    assert_eq!(gc.events, vec![GcEvent::LayoutRebuild { owner: obj, count: 2 }]);
    with_gc(&mut rt.heap, obj, |gc| GcHeader { old_gen: true, ..gc });
    let mut gc = GcLog::new();
    rebuild_object_field_layout(&rt.heap, &mut gc, obj, 2);
    assert_eq!(
        gc.events,
        vec![
            GcEvent::LayoutRebuild { owner: obj, count: 2 },
            GcEvent::SlotBarrier { owner: obj, slot_addr: obj + 32, bits: TAG_UNDEFINED },
            GcEvent::SlotBarrier { owner: obj, slot_addr: obj + 40, bits: TAG_UNDEFINED },
        ]
    );

    let mut gc = GcLog::new();
    let arr = array_from(&mut rt.heap, &vec![4, 5], 8);
    rebuild_array_layout_from_slots(&rt.heap, &mut gc, 0);
    assert!(gc.events.is_empty());
    rebuild_array_layout_from_slots(&rt.heap, &mut gc, arr);
    assert_eq!(gc.events, vec![GcEvent::LayoutRebuild { owner: arr, count: 2 }]);
    with_gc(&mut rt.heap, arr, |gc| GcHeader { old_gen: true, ..gc });
    let mut gc = GcLog::new();
    rebuild_array_layout_from_slots(&rt.heap, &mut gc, arr);
    assert_eq!(
        gc.events,
        vec![
            GcEvent::LayoutRebuild { owner: arr, count: 2 },
            GcEvent::SlotBarrier { owner: arr, slot_addr: arr + 8, bits: 4 },
            GcEvent::SlotBarrier { owner: arr, slot_addr: arr + 16, bits: 5 },
        ]
    );
}
