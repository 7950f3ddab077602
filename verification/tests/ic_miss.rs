use perry_object::enumerate::{
    decimal_bytes, js_object_entries_value, js_object_keys_value, js_object_values_value,
    split_characters,
};
use perry_object::heap::GcHeader;
use perry_object::ic::{
    js_object_get_field_ic, js_object_get_field_ic_miss, keys_cacheable_for_pic, read_exotic,
    IcAnswers, IcOutcome, IcQuestion, IcRoute, PicCache,
};
use perry_object::key_lists::js_array_alloc;
use perry_object::keys::{js_array_get, js_array_length, js_string_from_bytes};
use perry_object::literals::js_object_alloc_with_shape;
use perry_object::object_ops::{
    js_object_alloc, js_object_get_field_by_name, js_object_has_property,
    js_object_set_field_by_name,
};
use perry_object::runtime::ObjectRuntime;
use perry_object::shapes::{is_shape_id, ShapeIds, PIC_ID_TOKEN_BIT};
use perry_object::value::{JSValue, TAG_FALSE, TAG_NULL, TAG_TRUE, TAG_UNDEFINED};

const NULL_OBJECT: usize = 0x30_0000;

fn number(v: f64) -> JSValue {
    JSValue::from_bits(v.to_bits())
}

fn is_truthy(v: JSValue) -> i32 {
    assert!(v.bits() == TAG_TRUE || v.bits() == TAG_FALSE);
    if v.bits() == TAG_TRUE {
        1
    } else {
        0
    }
}

fn text_at(rt: &ObjectRuntime, arr: usize, i: u32) -> Vec<u8> {
    let v = js_array_get(&rt.heap, arr, i);
    assert!(v.is_string());
    rt.heap.string(v.as_pointer()).unwrap().bytes.clone()
}

fn unprimed() -> PicCache {
    PicCache { token: 0, slot: 0 }
}

fn miss(
    rt: &mut ObjectRuntime,
    ids: &mut ShapeIds,
    answers: &IcAnswers,
    obj: usize,
    key: usize,
    cache: &mut PicCache,
) -> IcOutcome {
    js_object_get_field_ic_miss(
        &mut rt.heap,
        &mut rt.shapes,
        ids,
        false,
        answers,
        obj,
        key,
        NULL_OBJECT,
        cache,
    )
}

/// Answers that say the receiver is an ordinary object.
fn ordinary() -> IcAnswers {
    IcAnswers {
        closure_property: Some(None),
        is_buffer: Some(false),
        is_typed_array: Some(false),
        ..IcAnswers::none()
    }
}

#[test]
fn object_keys_values_entries_on_string_do_not_crash() {
    let mut rt = ObjectRuntime::new();
    let heap = js_string_from_bytes(&mut rt.heap, b"abc");
    let v = JSValue::string(heap);
    let keys = js_object_keys_value(&mut rt, v);
    assert_eq!(js_array_length(&rt.heap, keys), 3);
    let values = js_object_values_value(&mut rt, v);
    assert_eq!(js_array_length(&rt.heap, values), 3);
    let entries = js_object_entries_value(&mut rt, v);
    assert_eq!(js_array_length(&rt.heap, entries), 3);
    // SSO string (<= 5 bytes): no pointer at all.
    let sso = JSValue::try_short_string(b"hi").unwrap();
    let keys = js_object_keys_value(&mut rt, sso);
    assert_eq!(js_array_length(&rt.heap, keys), 2);
    // Number / boolean primitives: empty array (no own enumerable keys).
    let keys = js_object_keys_value(&mut rt, number(42.0));
    assert_eq!(js_array_length(&rt.heap, keys), 0);
}

#[test]
fn in_operator_finds_object_key_via_sso_lookup() {
    let mut rt = ObjectRuntime::new();
    let mut ids = ShapeIds::new();
    let obj = js_object_alloc(&mut rt, 0, 0);
    let key = js_string_from_bytes(&mut rt.heap, b"id");
    js_object_set_field_by_name(&mut rt, &mut ids, obj, key, number(42.0));

    let obj_box = JSValue::pointer(obj);
    let sso = JSValue::try_short_string(b"id").unwrap();
    assert!(sso.is_short_string());
    let present = js_object_has_property(&rt, obj_box, sso);
    assert_ne!(
        is_truthy(present),
        0,
        "SSO key 'id' should be found via `in`"
    );

    let missing = JSValue::try_short_string(b"zz").unwrap();
    let absent = js_object_has_property(&rt, obj_box, missing);
    assert_eq!(
        is_truthy(absent),
        0,
        "absent SSO key 'zz' should not be found"
    );
}

#[test]
fn pic_caches_only_shape_shared_keys() {
    let mut rt = ObjectRuntime::new();
    let keys = js_array_alloc(&mut rt.heap, 4);
    assert!(
        !keys_cacheable_for_pic(&rt.heap, keys),
        "a fresh owned keys array must not be PIC-cacheable"
    );
    let gc = rt.heap.gc_header(keys).unwrap();
    rt.heap.set_gc_header(keys, GcHeader { shape_shared: true, ..gc });
    assert!(
        keys_cacheable_for_pic(&rt.heap, keys),
        "a shape-shared keys array must stay PIC-cacheable"
    );
}

#[test]
fn only_arrays_are_cacheable() {
    let mut rt = ObjectRuntime::new();
    let obj = js_object_alloc(&mut rt, 0, 0);
    let gc = rt.heap.gc_header(obj).unwrap();
    rt.heap.set_gc_header(obj, GcHeader { shape_shared: true, ..gc });
    assert!(!keys_cacheable_for_pic(&rt.heap, obj));
    assert!(!keys_cacheable_for_pic(&rt.heap, 0));
    assert!(!keys_cacheable_for_pic(&rt.heap, 0x1000));
}

#[test]
fn listings_hold_indices_characters_and_pairs() {
    let mut rt = ObjectRuntime::new();
    let s = js_string_from_bytes(&mut rt.heap, "aé".as_bytes());
    let v = JSValue::string(s);
    let keys = js_object_keys_value(&mut rt, v);
    assert_eq!(js_array_length(&rt.heap, keys), 2);
    assert_eq!(text_at(&rt, keys, 0), b"0");
    assert_eq!(text_at(&rt, keys, 1), b"1");
    let values = js_object_values_value(&mut rt, v);
    assert_eq!(text_at(&rt, values, 0), b"a");
    assert_eq!(text_at(&rt, values, 1), "é".as_bytes());
    let entries = js_object_entries_value(&mut rt, v);
    let pair = js_array_get(&rt.heap, entries, 1);
    assert!(pair.is_pointer());
    assert_eq!(js_array_length(&rt.heap, pair.as_pointer()), 2);
    assert_eq!(text_at(&rt, pair.as_pointer(), 0), b"1");
    assert_eq!(text_at(&rt, pair.as_pointer(), 1), "é".as_bytes());
    assert_eq!(split_characters("aé".as_bytes()).len(), 2);
    assert_eq!(decimal_bytes(0), b"0");
    assert_eq!(decimal_bytes(4_294_967_295), b"4294967295");
}

#[test]
fn listings_of_an_object_keep_the_order_of_its_keys() {
    let mut rt = ObjectRuntime::new();
    let mut ids = ShapeIds::new();
    let obj = js_object_alloc(&mut rt, 0, 0);
    for (i, name) in ["z", "a", "m"].into_iter().enumerate() {
        let k = js_string_from_bytes(&mut rt.heap, name.as_bytes());
        js_object_set_field_by_name(&mut rt, &mut ids, obj, k, number(i as f64));
    }
    let v = JSValue::pointer(obj);
    let keys = js_object_keys_value(&mut rt, v);
    assert_eq!(js_array_length(&rt.heap, keys), 3);
    assert_eq!(text_at(&rt, keys, 0), b"z");
    assert_eq!(text_at(&rt, keys, 1), b"a");
    assert_eq!(text_at(&rt, keys, 2), b"m");
    let values = js_object_values_value(&mut rt, v);
    assert_eq!(js_array_get(&rt.heap, values, 2), number(2.0));
    let entries = js_object_entries_value(&mut rt, v);
    let last = js_array_get(&rt.heap, entries, 2).as_pointer();
    assert_eq!(text_at(&rt, last, 0), b"m");
    assert_eq!(js_array_get(&rt.heap, last, 1), number(2.0));
}

#[test]
fn a_miss_stamps_the_object_and_primes_an_id_token() {
    let mut rt = ObjectRuntime::new();
    let mut ids = ShapeIds::new();
    let obj = js_object_alloc(&mut rt, 0, 8);
    let a = js_string_from_bytes(&mut rt.heap, b"a");
    let b = js_string_from_bytes(&mut rt.heap, b"b");
    js_object_set_field_by_name(&mut rt, &mut ids, obj, a, number(1.0));
    js_object_set_field_by_name(&mut rt, &mut ids, obj, b, number(2.0));
    let mut cache = unprimed();
    let r = miss(&mut rt, &mut ids, &ordinary(), obj, b, &mut cache);
    assert_eq!(r, IcOutcome::Value(number(2.0)));
    let stamp = rt.heap.object(obj).unwrap().header.parent_class_id;
    assert!(is_shape_id(stamp));
    assert_eq!(cache.token, (stamp as u64 | PIC_ID_TOKEN_BIT) as i64);
    assert_eq!(cache.slot, 1);
    // Again: the same value, and nothing changes.
    let before = cache;
    let r = miss(&mut rt, &mut ids, &ordinary(), obj, b, &mut cache);
    assert_eq!(r, IcOutcome::Value(number(2.0)));
    assert_eq!(cache, before);
    assert_eq!(rt.heap.object(obj).unwrap().header.parent_class_id, stamp);
}

#[test]
fn class_instances_prime_their_keys_array_only_if_it_is_shared() {
    let mut rt = ObjectRuntime::new();
    let mut ids = ShapeIds::new();
    let obj = js_object_alloc(&mut rt, 17, 100);
    let mut last: usize = 0;
    for i in 0..70 {
        last = js_string_from_bytes(&mut rt.heap, format!("k{i}").as_bytes());
        js_object_set_field_by_name(&mut rt, &mut ids, obj, last, number(i as f64));
    }
    // Edges this deep do not share their target, so the array is owned.
    let keys = rt.heap.object(obj).unwrap().header.keys_array;
    let mut cache = unprimed();
    let r = miss(&mut rt, &mut ids, &ordinary(), obj, last, &mut cache);
    assert_eq!(r, IcOutcome::Value(number(69.0)));
    assert_eq!(cache, unprimed());

    let gc = rt.heap.gc_header(keys).unwrap();
    rt.heap.set_gc_header(keys, GcHeader { shape_shared: true, ..gc });
    let r = miss(&mut rt, &mut ids, &ordinary(), obj, last, &mut cache);
    assert_eq!(r, IcOutcome::Value(number(69.0)));
    assert_eq!(cache, PicCache { token: keys as i64, slot: 69 });
}

#[test]
fn a_primed_site_serves_a_sibling() {
    let mut rt = ObjectRuntime::new();
    let mut ids = ShapeIds::new();
    let first = js_object_alloc_with_shape(&mut rt, &mut ids, 5, 2, b"x\0y");
    let other = js_object_alloc_with_shape(&mut rt, &mut ids, 5, 2, b"x\0y");
    let y = js_string_from_bytes(&mut rt.heap, b"y");
    js_object_set_field_by_name(&mut rt, &mut ids, first, y, number(1.0));
    js_object_set_field_by_name(&mut rt, &mut ids, other, y, number(2.0));
    let mut cache = unprimed();
    let _ = miss(&mut rt, &mut ids, &ordinary(), first, y, &mut cache);
    // What the hit path of compiled code does for the sibling.
    let o = rt.heap.object(other).unwrap();
    assert_eq!(
        (o.header.parent_class_id as u64 | PIC_ID_TOKEN_BIT) as i64,
        cache.token
    );
    assert_eq!(o.fields[cache.slot as usize], number(2.0).bits());
}

#[test]
fn fields_outside_the_inline_slots_are_left_to_the_general_read() {
    let mut rt = ObjectRuntime::new();
    let mut ids = ShapeIds::new();
    let obj = js_object_alloc(&mut rt, 0, 0);
    let mut key: usize = 0;
    for i in 0..6 {
        key = js_string_from_bytes(&mut rt.heap, format!("k{i}").as_bytes());
        js_object_set_field_by_name(&mut rt, &mut ids, obj, key, number(i as f64));
    }
    let mut cache = unprimed();
    assert_eq!(miss(&mut rt, &mut ids, &ordinary(), obj, key, &mut cache), IcOutcome::ByName);
    assert_eq!(cache, unprimed());
    let absent = js_string_from_bytes(&mut rt.heap, b"absent");
    assert_eq!(miss(&mut rt, &mut ids, &ordinary(), obj, absent, &mut cache), IcOutcome::ByName);
    assert_eq!(cache, unprimed());
}

#[test]
fn accessors_anywhere_turn_the_cache_off() {
    let mut rt = ObjectRuntime::new();
    let mut ids = ShapeIds::new();
    let obj = js_object_alloc(&mut rt, 0, 8);
    let k = js_string_from_bytes(&mut rt.heap, b"k");
    js_object_set_field_by_name(&mut rt, &mut ids, obj, k, number(1.0));
    let mut cache = unprimed();
    let r = js_object_get_field_ic_miss(
        &mut rt.heap,
        &mut rt.shapes,
        &mut ids,
        true,
        &ordinary(),
        obj,
        k,
        NULL_OBJECT,
        &mut cache,
    );
    assert_eq!(r, IcOutcome::ByName);
    assert_eq!(cache, unprimed());
}

#[test]
fn null_receivers_and_keys_read_as_undefined() {
    let mut rt = ObjectRuntime::new();
    let mut ids = ShapeIds::new();
    let k = js_string_from_bytes(&mut rt.heap, b"k");
    let mut cache = unprimed();
    let undefined = IcOutcome::Value(JSValue::undefined());
    assert_eq!(miss(&mut rt, &mut ids, &IcAnswers::none(), 0, k, &mut cache), undefined);
    let obj = js_object_alloc(&mut rt, 0, 0);
    assert_eq!(miss(&mut rt, &mut ids, &IcAnswers::none(), obj, 0, &mut cache), undefined);
}

#[test]
fn short_strings_are_read_by_name() {
    let mut rt = ObjectRuntime::new();
    let mut ids = ShapeIds::new();
    let k = js_string_from_bytes(&mut rt.heap, b"length");
    let sso = JSValue::try_short_string(b"hi").unwrap();
    let mut cache = unprimed();
    let r = miss(&mut rt, &mut ids, &IcAnswers::none(), sso.bits() as usize, k, &mut cache);
    assert_eq!(r, IcOutcome::ByName);
}

#[test]
fn proxies_are_asked_for_and_read_through_their_trap() {
    let mut rt = ObjectRuntime::new();
    let mut ids = ShapeIds::new();
    let k = js_string_from_bytes(&mut rt.heap, b"col");
    let mut cache = unprimed();
    let proxy: usize = 0xF0001;
    let r = miss(&mut rt, &mut ids, &IcAnswers::none(), proxy, k, &mut cache);
    assert_eq!(r, IcOutcome::Ask(IcQuestion::IsProxy));
    let answers = IcAnswers { is_proxy: Some(true), ..IcAnswers::none() };
    let r = miss(&mut rt, &mut ids, &answers, proxy, k, &mut cache);
    assert_eq!(
        r,
        IcOutcome::ProxyGet { proxy: JSValue::pointer(proxy), key: JSValue::string(k) }
    );
}

#[test]
fn heap_receivers_are_asked_about_in_order() {
    let mut rt = ObjectRuntime::new();
    let obj = js_object_alloc(&mut rt, 0, 0);
    let k = js_string_from_bytes(&mut rt.heap, b"k");
    let mut answers = IcAnswers::none();
    let mut asked: Vec<IcQuestion> = Vec::new();
    while let Some(IcOutcome::Ask(q)) = read_exotic(&rt.heap, &answers, obj, k, NULL_OBJECT) {
        asked.push(q);
        match q {
            IcQuestion::ClosureProperty => answers.closure_property = Some(None),
            IcQuestion::IsBuffer => answers.is_buffer = Some(false),
            IcQuestion::IsTypedArray => answers.is_typed_array = Some(false),
            _ => unreachable!(),
        }
    }
    assert_eq!(
        asked,
        vec![IcQuestion::ClosureProperty, IcQuestion::IsBuffer, IcQuestion::IsTypedArray]
    );
    let closure = IcAnswers { closure_property: Some(Some(9)), ..IcAnswers::none() };
    assert_eq!(
        read_exotic(&rt.heap, &closure, obj, k, NULL_OBJECT),
        Some(IcOutcome::Value(JSValue::from_bits(9)))
    );
    let buffer = IcAnswers { is_buffer: Some(true), ..answers };
    assert_eq!(read_exotic(&rt.heap, &buffer, obj, k, NULL_OBJECT), Some(IcOutcome::ByName));
    let typed = IcAnswers { is_typed_array: Some(true), ..answers };
    assert_eq!(read_exotic(&rt.heap, &typed, obj, k, NULL_OBJECT), Some(IcOutcome::ByName));
}

#[test]
fn handles_are_read_by_timer_text_and_dispatcher() {
    let mut rt = ObjectRuntime::new();
    let mut ids = ShapeIds::new();
    let handle: usize = 3;
    let unref = js_string_from_bytes(&mut rt.heap, b"unref");
    let status = js_string_from_bytes(&mut rt.heap, b"status");
    let mut cache = unprimed();

    let mut answers = IcAnswers { is_proxy: Some(false), ..IcAnswers::none() };
    let ask = |q: IcQuestion| IcOutcome::Ask(q);
    assert_eq!(
        miss(&mut rt, &mut ids, &answers, handle, unref, &mut cache),
        ask(IcQuestion::IsTimer)
    );
    answers.is_timer = Some(true);
    assert_eq!(
        miss(&mut rt, &mut ids, &answers, handle, unref, &mut cache),
        IcOutcome::BindMethod { this: JSValue::pointer(handle) }
    );
    // Another key is no business of timers.
    assert_eq!(
        miss(&mut rt, &mut ids, &answers, handle, status, &mut cache),
        ask(IcQuestion::TextProperty)
    );
    answers.text_property = Some(Some(77));
    assert_eq!(
        miss(&mut rt, &mut ids, &answers, handle, status, &mut cache),
        IcOutcome::Value(JSValue::from_bits(77))
    );
    answers.text_property = Some(None);
    assert_eq!(
        miss(&mut rt, &mut ids, &answers, handle, status, &mut cache),
        ask(IcQuestion::HandleProperty)
    );
    answers.handle_property = Some(Some(200));
    assert_eq!(
        miss(&mut rt, &mut ids, &answers, handle, status, &mut cache),
        IcOutcome::Value(JSValue::from_bits(200))
    );
    // What the dispatcher does not know may be inherited.
    answers.handle_property = Some(Some(TAG_UNDEFINED));
    assert_eq!(
        miss(&mut rt, &mut ids, &answers, handle, status, &mut cache),
        ask(IcQuestion::InheritedProperty)
    );
    answers.inherited_property = Some(Some(5));
    assert_eq!(
        miss(&mut rt, &mut ids, &answers, handle, status, &mut cache),
        IcOutcome::Value(JSValue::from_bits(5))
    );
    answers.inherited_property = Some(None);
    assert_eq!(
        miss(&mut rt, &mut ids, &answers, handle, status, &mut cache),
        IcOutcome::Value(JSValue::undefined())
    );
    // Without a dispatcher nothing is inherited either.
    answers.handle_property = Some(None);
    answers.inherited_property = None;
    assert_eq!(
        miss(&mut rt, &mut ids, &answers, handle, status, &mut cache),
        IcOutcome::Value(JSValue::undefined())
    );
}

#[test]
fn handles_have_a_constructor() {
    let mut rt = ObjectRuntime::new();
    let mut ids = ShapeIds::new();
    let constructor = js_string_from_bytes(&mut rt.heap, b"constructor");
    let mut cache = unprimed();
    let mut answers = IcAnswers {
        is_proxy: Some(false),
        text_property: Some(None),
        handle_property: Some(Some(TAG_UNDEFINED)),
        ..IcAnswers::none()
    };
    let stub = IcOutcome::Value(JSValue::pointer(NULL_OBJECT));
    assert_eq!(miss(&mut rt, &mut ids, &answers, 3, constructor, &mut cache), stub);
    answers.handle_property = Some(None);
    assert_eq!(miss(&mut rt, &mut ids, &answers, 3, constructor, &mut cache), stub);
    answers.handle_property = Some(Some(8));
    assert_eq!(
        miss(&mut rt, &mut ids, &answers, 3, constructor, &mut cache),
        IcOutcome::Value(JSValue::from_bits(8))
    );
}

#[test]
fn reads_are_routed_by_tag() {
    let mut rt = ObjectRuntime::new();
    let size = js_string_from_bytes(&mut rt.heap, b"size");
    let route = |bits: u64, key: usize| js_object_get_field_ic(&rt.heap, bits, key, 4);
    let sso = JSValue::try_short_string(b"hi").unwrap().bits();
    assert_eq!(route(sso, size), IcRoute::ByName { receiver: sso });
    let class_ref: u64 = 0x7FFE_0000_0000_0007;
    assert_eq!(
        route(class_ref, size),
        IcRoute::ClassRef { site_id: 4, receiver: class_ref }
    );
    assert_eq!(
        route(JSValue::pointer(0x20_0008).bits(), size),
        IcRoute::Miss { site_id: 4, obj: 0x20_0008 }
    );
    assert_eq!(
        route(JSValue::string(0x20_0010).bits(), size),
        IcRoute::Miss { site_id: 4, obj: 0x20_0010 }
    );
    assert_eq!(
        route(TAG_UNDEFINED, size),
        IcRoute::Nullish { is_null: false, name: b"size".to_vec() }
    );
    assert_eq!(
        route(TAG_NULL, size),
        IcRoute::Nullish { is_null: true, name: b"size".to_vec() }
    );
    assert_eq!(
        route(TAG_NULL, 0),
        IcRoute::Nullish { is_null: true, name: Vec::new() }
    );
    let pi = number(3.14).bits();
    assert_eq!(route(pi, size), IcRoute::ByName { receiver: pi });
}

#[test]
fn missed_reads_agree_with_the_general_read() {
    let mut rt = ObjectRuntime::new();
    let mut ids = ShapeIds::new();
    let obj = js_object_alloc(&mut rt, 0, 8);
    let mut keys: Vec<usize> = Vec::new();
    for i in 0..12 {
        let k = js_string_from_bytes(&mut rt.heap, format!("k{i}").as_bytes());
        js_object_set_field_by_name(&mut rt, &mut ids, obj, k, number(i as f64));
        keys.push(k);
    }
    for (i, k) in keys.into_iter().enumerate() {
        let mut cache = unprimed();
        let general = js_object_get_field_by_name(&mut rt, &mut ids, obj, k);
        assert_eq!(general, number(i as f64));
        let missed = miss(&mut rt, &mut ids, &ordinary(), obj, k, &mut cache);
        if i < 8 {
            assert_eq!(missed, IcOutcome::Value(general));
            assert_eq!(cache.slot, i as i64);
        } else {
            assert_eq!(missed, IcOutcome::ByName);
        }
    }
}
