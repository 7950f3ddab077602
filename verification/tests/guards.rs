use perry_object::call_depth::{
    call_method_depth_restore, call_method_depth_savepoint, CallMethodDepth, CallMethodDepthGuard,
};
use perry_object::object_ops::js_object_alloc;
use perry_object::private_brand::{
    js_private_brand_check, js_private_guard, private_object_has_brand, ClassParents,
    PrivateAccessError, INSTANCE_READ, INSTANCE_WRITE, PRIVATE_FIELD, PRIVATE_GETTER,
    PRIVATE_GETTER_SETTER, PRIVATE_METHOD, PRIVATE_SETTER, STATIC_READ, STATIC_WRITE,
};
use perry_object::runtime::ObjectRuntime;
use perry_object::stubs::{
    js_unresolved_default_call, js_unresolved_namespace_stub, NullObjectBytes,
};
use perry_object::value::{JSValue, TAG_FALSE, TAG_TRUE, TAG_UNDEFINED};

/// Classes 1 <- 2 <- 3, and an instance of each of 1, 2, 3 and of 9.
fn classes() -> (ObjectRuntime, ClassParents, [JSValue; 4]) {
    let mut rt = ObjectRuntime::new();
    let mut parents = ClassParents::new();
    parents.register(2, 1);
    parents.register(3, 2);
    let mut instances = [JSValue::undefined(); 4];
    for (i, class_id) in [1u32, 2, 3, 9].into_iter().enumerate() {
        instances[i] = JSValue::pointer(js_object_alloc(&mut rt, class_id, 0));
    }
    (rt, parents, instances)
}

#[test]
fn instances_carry_the_brands_above_them() {
    let (rt, parents, [one, two, three, nine]) = classes();
    assert!(private_object_has_brand(&rt.heap, &parents, one, 1));
    assert!(private_object_has_brand(&rt.heap, &parents, three, 1));
    assert!(private_object_has_brand(&rt.heap, &parents, three, 2));
    assert!(!private_object_has_brand(&rt.heap, &parents, one, 2));
    assert!(!private_object_has_brand(&rt.heap, &parents, nine, 1));
    assert!(!private_object_has_brand(&rt.heap, &parents, two, 0));
    let check = |v: JSValue, class_id: u32, name: &[u8]| {
        js_private_brand_check(&rt.heap, &parents, v, class_id, name).bits()
    };
    assert_eq!(check(two, 1, b"#x"), TAG_TRUE);
    assert_eq!(check(one, 2, b"#x"), TAG_FALSE);
    assert_eq!(check(two, 1, b""), TAG_FALSE);
    assert_eq!(check(two, 0, b"#x"), TAG_FALSE);
    assert_eq!(check(JSValue::from_bits(TAG_TRUE), 1, b"#x"), TAG_FALSE);
    assert_eq!(check(JSValue::pointer(0), 1, b"#x"), TAG_FALSE);
}

#[test]
fn plain_objects_have_no_brand() {
    let (mut rt, parents, _) = classes();
    let plain = JSValue::pointer(js_object_alloc(&mut rt, 0, 0));
    assert_eq!(
        js_private_brand_check(&rt.heap, &parents, plain, 1, b"#x").bits(),
        TAG_FALSE
    );
}

#[test]
fn brands_of_far_ancestors_are_found_and_cycles_end() {
    let mut rt = ObjectRuntime::new();
    let mut parents = ClassParents::new();
    // A chain of forty classes.
    for c in 2..=40u32 {
        parents.register(c, c - 1);
    }
    let deep = JSValue::pointer(js_object_alloc(&mut rt, 40, 0));
    for c in 1..=40u32 {
        assert!(private_object_has_brand(&rt.heap, &parents, deep, c));
    }
    assert!(!private_object_has_brand(&rt.heap, &parents, deep, 41));
    assert_eq!(
        js_private_guard(
            &rt.heap,
            &parents,
            deep,
            None,
            1,
            b"#x",
            PRIVATE_FIELD,
            INSTANCE_READ
        ),
        Ok(deep)
    );
    // Cycles and self-parents.
    parents.register(50, 51);
    parents.register(51, 50);
    parents.register(60, 60);
    let cyclic = JSValue::pointer(js_object_alloc(&mut rt, 50, 0));
    assert!(private_object_has_brand(&rt.heap, &parents, cyclic, 51));
    assert!(!private_object_has_brand(&rt.heap, &parents, cyclic, 1));
    let own = JSValue::pointer(js_object_alloc(&mut rt, 60, 0));
    assert!(!private_object_has_brand(&rt.heap, &parents, own, 1));
}

#[test]
fn the_guard_tests_the_brand_before_the_kind() {
    let (rt, parents, [one, two, _, nine]) = classes();
    let guard = |v: JSValue, class_ref: Option<u32>, class_id: u32, kind: u32, op: u32| {
        js_private_guard(&rt.heap, &parents, v, class_ref, class_id, b"#x", kind, op)
    };
    assert_eq!(guard(two, None, 1, PRIVATE_FIELD, INSTANCE_READ), Ok(two));
    assert_eq!(guard(two, None, 1, PRIVATE_FIELD, INSTANCE_WRITE), Ok(two));
    assert_eq!(
        guard(nine, None, 1, PRIVATE_SETTER, INSTANCE_READ),
        Err(PrivateAccessError::MissingBrand)
    );
    assert_eq!(
        guard(one, None, 1, PRIVATE_SETTER, INSTANCE_READ),
        Err(PrivateAccessError::WrongKind)
    );
    assert_eq!(
        guard(one, None, 1, PRIVATE_GETTER, INSTANCE_WRITE),
        Err(PrivateAccessError::WrongKind)
    );
    assert_eq!(
        guard(one, None, 1, PRIVATE_METHOD, INSTANCE_WRITE),
        Err(PrivateAccessError::WrongKind)
    );
    assert_eq!(guard(one, None, 1, PRIVATE_METHOD, INSTANCE_READ), Ok(one));
    assert_eq!(guard(one, None, 1, PRIVATE_GETTER, INSTANCE_READ), Ok(one));
    assert_eq!(guard(one, None, 1, PRIVATE_SETTER, INSTANCE_WRITE), Ok(one));
    assert_eq!(guard(one, None, 1, PRIVATE_GETTER_SETTER, INSTANCE_WRITE), Ok(one));
    // Without a declaring class everything passes.
    assert_eq!(guard(nine, None, 0, PRIVATE_SETTER, INSTANCE_READ), Ok(nine));
}

#[test]
fn static_members_belong_to_the_constructor_alone() {
    let (rt, parents, [one, ..]) = classes();
    let constructor = JSValue::from_bits(0x7FFE_0000_0000_0001);
    let guard = |v: JSValue, class_ref: Option<u32>, op: u32| {
        js_private_guard(&rt.heap, &parents, v, class_ref, 1, b"#s", PRIVATE_FIELD, op)
    };
    assert_eq!(guard(constructor, Some(1), STATIC_READ), Ok(constructor));
    assert_eq!(guard(constructor, Some(1), STATIC_WRITE), Ok(constructor));
    // A subclass, or an instance, does not carry them.
    assert_eq!(
        guard(constructor, Some(2), STATIC_READ),
        Err(PrivateAccessError::MissingBrand)
    );
    assert_eq!(guard(one, None, STATIC_READ), Err(PrivateAccessError::MissingBrand));
}

#[test]
fn refusals_have_a_message() {
    assert_eq!(
        PrivateAccessError::MissingBrand.message(),
        "Cannot access private member from an object whose class did not declare it"
    );
    assert_eq!(
        PrivateAccessError::WrongKind.message(),
        "Invalid private member operation for its kind"
    );
}

#[test]
fn nested_calls_are_limited_and_balanced() {
    let mut depth = CallMethodDepth::new();
    let mut guards: Vec<CallMethodDepthGuard> = Vec::new();
    for i in 0..512 {
        assert_eq!(depth.depth, i);
        guards.push(CallMethodDepthGuard::enter(&mut depth, "m").unwrap());
    }
    assert!(CallMethodDepthGuard::enter(&mut depth, "m").is_none());
    assert_eq!(depth.depth, 512);
    for guard in guards {
        guard.leave(&mut depth);
    }
    assert_eq!(depth.depth, 0);
}

#[test]
fn caught_throws_leak_no_depth() {
    let mut depth = CallMethodDepth::new();
    for _ in 0..2000 {
        let saved = call_method_depth_savepoint(&depth);
        // The throw jumps past this call, which never leaves.
        assert!(CallMethodDepthGuard::enter(&mut depth, "m").is_some());
        call_method_depth_restore(&mut depth, saved);
    }
    assert_eq!(depth.depth, 0);
}

#[test]
fn missing_modules_have_stubs() {
    let null = NullObjectBytes::new();
    assert_eq!(null.object_type, 1);
    assert_eq!(null.class_id, 0);
    assert_eq!(null.parent_class_id, 0);
    assert_eq!(null.field_count, 0);
    assert_eq!(null.keys_array, 0);
    assert_eq!(js_unresolved_namespace_stub(0x1234).bits(), 0x7FFD_0000_0000_1234);

    let mut warned = false;
    let first = js_unresolved_default_call(&mut warned);
    assert!(first.warn);
    assert_eq!(first.value.bits(), TAG_UNDEFINED);
    let second = js_unresolved_default_call(&mut warned);
    assert!(!second.warn);
    assert_eq!(second.value.bits(), TAG_UNDEFINED);
}
