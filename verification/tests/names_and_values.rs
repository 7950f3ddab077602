use std::collections::HashMap;

use perry_object::addr_class::{is_above_handle_band, is_proxy_id_band, is_small_handle};
use perry_object::by_name::{
    js_object_get_field_by_name_boxed, js_object_get_field_by_name_f64,
    js_object_get_field_by_property_id_f64, js_object_set_field_by_property_id, ByIdOutcome,
    ByNameAnswers, ByNameOutcome, ByNameQuestion, ClassNames, KeyRef,
};
use perry_object::gc::{GcEvent, GcLog, RuntimeRootVisitor};
use perry_object::heap::{GcHeader, Heap, StringHeader};
use perry_object::key_lists::{array_from, extend_keys};
use perry_object::keys::{
    clean_arr_ptr, interned_key_ptr, js_array_get, js_array_length, js_string_equals,
    js_string_from_bytes, js_string_intern, js_string_key_matches, key_bytes_hash, key_content_hash,
    keys_array_dense_slots, perry_key_content_hash, InternTable,
};
use perry_object::method_names::{
    is_array_method_value_name, is_primitive_proto_method, is_timer_handle_method_key,
    set_method_value_name,
};
use perry_object::object_cache_roots::{
    scan_object_cache_roots, scan_object_cache_roots_mut, test_clear_object_cache_roots,
    test_object_cache_roots, test_seed_object_cache_roots, ObjectCacheRoots, GENERATOR_PROTOTYPE,
    LOCAL_STORAGE, STRING_ITERATOR_PROTOTYPE,
};
use perry_object::object_ops::{js_object_alloc, js_object_get_field_by_name};
use perry_object::runtime::ObjectRuntime;
use perry_object::shapes::{shape_id_for_keys_ensure, test_shape_id_for_keys, ShapeIds, ShapeTable};
use perry_object::value::{JSValue, TAG_UNDEFINED};

#[test]
fn addresses_are_classified() {
    assert!(!is_small_handle(0));
    assert!(is_small_handle(1));
    assert!(is_small_handle(0xFFFFF));
    assert!(!is_small_handle(0x100000));
    assert!(!is_above_handle_band(0xFFFFF));
    assert!(is_above_handle_band(0x100000));
    assert!(!is_proxy_id_band(0xEFFFF));
    assert!(is_proxy_id_band(0xF0000));
    assert!(!is_proxy_id_band(0x100000));
}

#[test]
fn boxes_keep_tag_and_address() {
    let v = JSValue::pointer(0x1234_5678);
    assert_eq!(v.bits(), 0x7FFD_0000_1234_5678);
    assert!(v.is_pointer() && !v.is_string());
    assert_eq!(v.as_pointer(), 0x1234_5678);
    let s = JSValue::string(0x1234_5678);
    assert_eq!(s.bits(), 0x7FFF_0000_1234_5678);
    assert!(s.is_string() && !s.is_pointer());
}

#[test]
fn short_strings_round_trip() {
    for text in ["", "a", "ab", "abc", "abcd", "abcde"] {
        let v = JSValue::try_short_string(text.as_bytes()).unwrap();
        assert!(v.is_short_string());
        assert_eq!(v.short_string_bytes(), text.as_bytes());
    }
    assert_eq!(JSValue::try_short_string(b"abcdef"), None);
    assert_eq!(JSValue::try_short_string(b"hi").unwrap().bits(), 0x7FF9_0200_0000_6968);
}

#[test]
fn method_names_are_told_apart() {
    assert!(is_primitive_proto_method(b"toString"));
    assert!(is_primitive_proto_method(b"toLocaleString"));
    assert!(!is_primitive_proto_method(b"constructor"));
    assert!(is_array_method_value_name(b"splice"));
    assert!(!is_array_method_value_name(b"map"));
    assert_eq!(set_method_value_name(b"isDisjointFrom"), Some(&b"isDisjointFrom"[..]));
    assert_eq!(set_method_value_name(b"@@iterator"), Some(&b"@@iterator"[..]));
    assert_eq!(set_method_value_name(b"size"), None);
    assert!(is_timer_handle_method_key(b"hasRef"));
    assert!(is_timer_handle_method_key(b"@@__perry_wk_dispose"));
    assert!(is_timer_handle_method_key(b"@@__perry_wk_toPrimitive"));
    assert!(is_timer_handle_method_key(b"__perry_dispose__"));
    assert!(!is_timer_handle_method_key(b"then"));
}

#[test]
fn keys_are_hashed_by_fnv1a() {
    assert_eq!(key_bytes_hash(b""), 0xcbf29ce484222325);
    assert_eq!(key_bytes_hash(b"a"), 0xaf63dc4c8601ec8c);
    assert_eq!(key_bytes_hash(b"foobar"), 0x85944171f73967e8);
    let s = StringHeader { bytes: b"foobar".to_vec() };
    assert_eq!(key_content_hash(&s), 0x85944171f73967e8);
    assert_eq!(perry_key_content_hash(&s), 0x85944171f73967e8);
}

#[test]
fn equal_keys_have_one_interned_string() {
    let mut heap = Heap::new();
    let mut table = InternTable::new();
    let a = js_string_from_bytes(&mut heap, b"key");
    let b = js_string_from_bytes(&mut heap, b"key");
    let c = js_string_from_bytes(&mut heap, b"other");
    assert_ne!(a, b);
    assert!(js_string_equals(&heap, a, b));
    assert!(!js_string_equals(&heap, a, c));
    assert_eq!(interned_key_ptr(&mut heap, &mut table, a), a);
    assert!(heap.gc_header(a).unwrap().interned);
    assert_eq!(interned_key_ptr(&mut heap, &mut table, b), a);
    assert_eq!(interned_key_ptr(&mut heap, &mut table, c), c);
    assert_eq!(interned_key_ptr(&mut heap, &mut table, 0), 0);
    assert_eq!(interned_key_ptr(&mut heap, &mut table, 0x40), 0);
    // Bytes decide within a bucket.
    assert_eq!(js_string_intern(&mut heap, &mut table, b, 5), b);
    assert_eq!(js_string_intern(&mut heap, &mut table, c, 5), c);
    assert_eq!(js_string_intern(&mut heap, &mut table, a, 5), b);
}

#[test]
fn stored_keys_match_by_content() {
    let mut heap = Heap::new();
    let key = js_string_from_bytes(&mut heap, b"id");
    let same = js_string_from_bytes(&mut heap, b"id");
    assert!(js_string_key_matches(&heap, JSValue::string(same), key));
    let sso = JSValue::try_short_string(b"id").unwrap();
    assert!(js_string_key_matches(&heap, sso, key));
    assert!(!js_string_key_matches(&heap, JSValue::undefined(), key));
    assert!(!js_string_key_matches(&heap, sso, 0));
}

#[test]
fn outgrown_arrays_lead_to_their_replacement() {
    let mut heap = Heap::new();
    let mut shapes = ShapeTable::new();
    let mut ids = ShapeIds::new();
    let arr = array_from(&mut heap, &vec![1, 2], 2);
    let id = shape_id_for_keys_ensure(&mut shapes, &mut ids, arr, 2);
    let grown = extend_keys(&mut heap, &mut shapes, arr, 3);
    assert_ne!(grown, arr);
    assert_eq!(clean_arr_ptr(&heap, arr), grown);
    assert_eq!(js_array_length(&heap, arr), 3);
    assert_eq!(js_array_get(&heap, arr, 2).bits(), 3);
    assert_eq!(js_array_get(&heap, arr, 3).bits(), TAG_UNDEFINED);
    assert_eq!(keys_array_dense_slots(&heap, arr).unwrap(), &[1, 2, 3]);
    assert!(keys_array_dense_slots(&heap, 0).is_none());
    assert_eq!(test_shape_id_for_keys(&shapes, grown), Some(id));
    // A shared array is cloned and stays.
    let gc = heap.gc_header(grown).unwrap();
    heap.set_gc_header(grown, GcHeader { shape_shared: true, ..gc });
    let clone = extend_keys(&mut heap, &mut shapes, grown, 4);
    assert_ne!(clone, grown);
    assert_eq!(js_array_length(&heap, grown), 3);
    assert_eq!(js_array_length(&heap, clone), 4);
    assert_eq!(test_shape_id_for_keys(&shapes, clone), None);
    // An owned one with room grows in place.
    assert_eq!(extend_keys(&mut heap, &mut shapes, clone, 5), clone);
    assert_eq!(js_array_length(&heap, clone), 5);
}

fn answers(value: Option<u64>, forwarded: Option<Option<u64>>) -> ByNameAnswers {
    ByNameAnswers { value, forwarded }
}

#[test]
fn class_references_have_a_name() {
    let mut heap = Heap::new();
    let mut classes = ClassNames::new();
    classes.register(7, b"Widget".to_vec());
    let name = js_string_from_bytes(&mut heap, b"name");
    let other = js_string_from_bytes(&mut heap, b"length");
    let read = |heap: &mut Heap, classes: &ClassNames, obj: usize, key: usize| {
        js_object_get_field_by_name_f64(heap, classes, false, &answers(None, None), obj, key)
    };
    match read(&mut heap, &classes, 7, name) {
        ByNameOutcome::Value(v) => {
            assert!(v.is_string());
            assert_eq!(heap.string(v.as_pointer()).unwrap().bytes, b"Widget");
        }
        other => panic!("unexpected {other:?}"),
    }
    let ask = ByNameOutcome::Ask(ByNameQuestion::Value);
    assert_eq!(read(&mut heap, &classes, 7, other), ask);
    assert_eq!(read(&mut heap, &classes, 8, name), ask);
    assert_eq!(read(&mut heap, &classes, 0, name), ask);
    assert_eq!(read(&mut heap, &classes, 0x10007, name), ask);
    classes.delete_name(7);
    assert_eq!(read(&mut heap, &classes, 7, name), ask);
}

#[test]
fn undefined_reads_are_forwarded_to_an_alias() {
    let mut heap = Heap::new();
    let classes = ClassNames::new();
    let key = js_string_from_bytes(&mut heap, b"listen");
    let mut read = |alias: bool, a: ByNameAnswers, key: usize| {
        js_object_get_field_by_name_f64(&mut heap, &classes, alias, &a, 0x20_0000, key)
    };
    let value = |bits: u64| ByNameOutcome::Value(JSValue::from_bits(bits));
    assert_eq!(read(true, answers(Some(3), None), key), value(3));
    assert_eq!(
        read(true, answers(Some(TAG_UNDEFINED), None), key),
        ByNameOutcome::Ask(ByNameQuestion::Forwarded)
    );
    assert_eq!(read(true, answers(Some(TAG_UNDEFINED), Some(Some(9))), key), value(9));
    assert_eq!(
        read(true, answers(Some(TAG_UNDEFINED), Some(None)), key),
        value(TAG_UNDEFINED)
    );
    assert_eq!(read(false, answers(Some(TAG_UNDEFINED), None), key), value(TAG_UNDEFINED));
    assert_eq!(read(true, answers(Some(TAG_UNDEFINED), None), 0), value(TAG_UNDEFINED));
}

#[test]
fn boxed_receivers_that_refer_to_nothing_have_no_properties() {
    let mut rt = ObjectRuntime::new();
    let classes = ClassNames::new();
    let obj = js_object_alloc(&mut rt, 0, 0);
    let key = js_string_from_bytes(&mut rt.heap, b"status");
    let mut read = |receiver: JSValue| {
        js_object_get_field_by_name_boxed(
            &mut rt.heap,
            &classes,
            false,
            &answers(Some(5), None),
            receiver,
            key,
        )
    };
    let undefined = ByNameOutcome::Value(JSValue::undefined());
    let five = ByNameOutcome::Value(JSValue::from_bits(5));
    assert_eq!(read(JSValue::from_bits(3.14f64.to_bits())), undefined);
    assert_eq!(read(JSValue::try_short_string(b"hi").unwrap()), undefined);
    assert_eq!(read(JSValue::pointer(0)), undefined);
    assert_eq!(read(JSValue::pointer(0x7777_7777)), undefined);
    assert_eq!(read(JSValue::pointer(obj)), five);
    // A native handle goes to the general read.
    assert_eq!(read(JSValue::pointer(0x40001)), five);
}

#[test]
fn property_ids_become_names() {
    let mut rt = ObjectRuntime::new();
    let mut ids = ShapeIds::new();
    let obj = js_object_alloc(&mut rt, 0, 0);
    let undefined = ByIdOutcome::Value(JSValue::undefined());
    assert_eq!(js_object_get_field_by_property_id_f64(&mut rt.heap, None), undefined);
    let key = js_string_from_bytes(&mut rt.heap, b"size");
    assert_eq!(
        js_object_get_field_by_property_id_f64(&mut rt.heap, Some(&KeyRef::Heap(key))),
        ByIdOutcome::ByName { key }
    );
    let inline = KeyRef::Inline(b"id".to_vec());
    match js_object_get_field_by_property_id_f64(&mut rt.heap, Some(&inline)) {
        ByIdOutcome::ByName { key } => {
            assert_eq!(rt.heap.string(key).unwrap().bytes, b"id");
        }
        other => panic!("unexpected {other:?}"),
    }

    js_object_set_field_by_property_id(&mut rt, &mut ids, obj, None, JSValue::from_bits(1));
    assert_eq!(rt.heap.object(obj).unwrap().header.keys_array, 0);
    js_object_set_field_by_property_id(
        &mut rt,
        &mut ids,
        obj,
        Some(&inline),
        JSValue::from_bits(2),
    );
    js_object_set_field_by_property_id(
        &mut rt,
        &mut ids,
        obj,
        Some(&KeyRef::Heap(key)),
        JSValue::from_bits(3),
    );
    let id = js_string_from_bytes(&mut rt.heap, b"id");
    assert_eq!(js_object_get_field_by_name(&mut rt, &mut ids, obj, id).bits(), 2);
    assert_eq!(js_object_get_field_by_name(&mut rt, &mut ids, obj, key).bits(), 3);
}

#[test]
fn object_caches_are_seeded_and_cleared() {
    let mut roots = ObjectCacheRoots::new();
    let mut gc = GcLog::new();
    let words = [1, 2, 3, 4, 5, 6, 7];
    test_seed_object_cache_roots(&mut roots, &mut gc, words, 0x9000);
    assert_eq!(test_object_cache_roots(&roots), (words, 0x9000));
    assert!(roots.global_this_ready);
    assert_eq!(gc.events.len(), 8);
    assert_eq!(gc.events[0], GcEvent::RootWordStore { bits: 1 });
    assert_eq!(gc.events[6], GcEvent::RootWordStore { bits: 7 });
    assert_eq!(gc.events[7], GcEvent::RootStore { addr: 0x9000 });
    test_clear_object_cache_roots(&mut roots, &mut gc);
    assert_eq!(test_object_cache_roots(&roots), ([0; 7], 0));
    assert!(!roots.global_this_ready);
    assert_eq!(gc.events.len(), 16);
}

#[test]
fn object_caches_are_roots() {
    let mut roots = ObjectCacheRoots::new();
    let mut gc = GcLog::new();
    let methods = JSValue::pointer(0x1000).bits();
    let dlopen = JSValue::pointer(0x2000).bits();
    test_seed_object_cache_roots(&mut roots, &mut gc, [methods, 0, 0, 0, 0, 0, dlopen], 0x3000);
    roots.intrinsics[GENERATOR_PROTOTYPE] = 0x4000;
    roots.async_generator_queue.push(JSValue::string(0x5000).bits());
    roots.shared_prototypes[LOCAL_STORAGE] = 0x6000;
    roots.shared_prototypes[STRING_ITERATOR_PROTOTYPE] = 0x7000;
    let pointer = |addr: usize| JSValue::pointer(addr).bits();
    assert_eq!(
        scan_object_cache_roots(&mut roots),
        vec![
            methods,
            dlopen,
            pointer(0x3000),
            pointer(0x4000),
            JSValue::string(0x5000).bits(),
            pointer(0x6000),
            pointer(0x7000),
        ]
    );
    let moves: HashMap<usize, usize> = [(0x1000, 0x1100), (0x3000, 0x3300), (0x7000, 0x7700)]
        .into_iter()
        .collect();
    let mut visitor = RuntimeRootVisitor::for_rewrite(moves);
    scan_object_cache_roots_mut(&mut roots, &mut visitor);
    assert_eq!(
        test_object_cache_roots(&roots),
        ([pointer(0x1100), 0, 0, 0, 0, 0, dlopen], 0x3300)
    );
    assert_eq!(roots.shared_prototypes[STRING_ITERATOR_PROTOTYPE], 0x7700);
    assert_eq!(roots.shared_prototypes[LOCAL_STORAGE], 0x6000);
}
