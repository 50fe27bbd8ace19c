use scoped_gc::GcScope;

#[test]
fn simple_alive_then_collected() {
    // One box, observed through its handle; once the handle is gone a
    // collection leaves nothing behind.
    let mut scope: GcScope<String> = GcScope::new();
    let h = scope.allocate(String::from("hello")).unwrap();
    assert_eq!(*scope.get(&h), String::from("hello"));
    scope.drop_handle(h);
    scope.collect_garbage();
    assert_eq!(scope.live_boxes(), 0);
    assert_eq!(scope.allocated_bytes(), 0);
}

#[test]
fn clone_keeps_alive() {
    let mut scope: GcScope<String> = GcScope::new();
    let h1 = scope.allocate(String::from("x")).unwrap();
    let h2 = scope.clone_handle(&h1);
    scope.drop_handle(h1);
    scope.collect_garbage();
    // Still live: h2 contributes the one remaining root.
    assert_eq!(scope.live_boxes(), 1);
    assert_eq!(scope.root_count(&h2), 1);
    scope.drop_handle(h2);
    scope.collect_garbage();
    assert_eq!(scope.live_boxes(), 0);
}

#[test]
fn cycle_reclaimed() {
    // Two boxes pointing at each other: reference counts alone could
    // never free them, the mark phase does.
    let mut scope: GcScope<String> = GcScope::new();
    let a = scope.allocate(String::from("a")).unwrap();
    let b = scope.allocate(String::from("b")).unwrap();
    let cb = scope.clone_handle(&b);
    scope.push_ref(&a, cb);
    let ca = scope.clone_handle(&a);
    scope.push_ref(&b, ca);
    scope.drop_handle(a);
    scope.drop_handle(b);
    scope.collect_garbage();
    assert_eq!(scope.live_boxes(), 0);
    assert_eq!(scope.allocated_bytes(), 0);
}

#[test]
fn tree_with_back_edges() {
    let mut scope: GcScope<()> = GcScope::new();
    let root = scope.allocate(()).unwrap();
    let c1 = scope.allocate(()).unwrap();
    let c2 = scope.allocate(()).unwrap();
    let e = scope.clone_handle(&c1);
    scope.push_ref(&root, e);
    let e = scope.clone_handle(&c2);
    scope.push_ref(&root, e);
    let e = scope.clone_handle(&root);
    scope.push_ref(&c1, e);
    let e = scope.clone_handle(&root);
    scope.push_ref(&c2, e);
    // All three handles on the stack: collecting changes nothing.
    scope.collect_garbage();
    assert_eq!(scope.live_boxes(), 3);
    // Dropping all three handles makes the whole component unreachable.
    scope.drop_handle(root);
    scope.drop_handle(c1);
    scope.drop_handle(c2);
    scope.collect_garbage();
    assert_eq!(scope.live_boxes(), 0);
}

#[test]
fn edge_set_in_mutation_window_then_collected() {
    // A handle cloned into a box during a mutation window pins nothing by
    // itself once the box's own handle is gone; the box holding the edge
    // is collected, the edge's target survives through its own root.
    let mut scope: GcScope<String> = GcScope::new();
    let other = scope.allocate(String::from("other")).unwrap();
    let h = scope.allocate(String::from("inner")).unwrap();
    let c = scope.clone_handle(&other);
    scope.push_ref(&h, c);
    scope.drop_handle(h);
    scope.collect_garbage();
    assert_eq!(scope.live_boxes(), 1);
    assert_eq!(scope.root_count(&other), 1);
    scope.drop_handle(other);
    scope.collect_garbage();
    assert_eq!(scope.live_boxes(), 0);
}

#[test]
fn replacing_an_edge_redirects_it() {
    let mut scope: GcScope<String> = GcScope::new();
    let first = scope.allocate(String::from("first")).unwrap();
    let second = scope.allocate(String::from("second")).unwrap();
    let holder = scope.allocate(String::from("holder")).unwrap();
    let c = scope.clone_handle(&first);
    scope.push_ref(&holder, c);
    // Redirect the edge from first to second.
    let c = scope.clone_handle(&second);
    scope.set_ref(&holder, 0, c);
    scope.drop_handle(first);
    scope.drop_handle(second);
    scope.collect_garbage();
    // holder and second survive (holder is rooted and points at second);
    // first is unreachable now.
    assert_eq!(scope.live_boxes(), 2);
    // The surviving edge leads to "second".
    let back = scope.clone_ref(&holder, 0);
    assert_eq!(*scope.get(&back), String::from("second"));
    scope.drop_handle(back);
    scope.drop_handle(holder);
    scope.collect_garbage();
    assert_eq!(scope.live_boxes(), 0);
}

#[test]
fn set_value_mutates_allocated_leaf_data() {
    // Mutating the leaf data of a box already inside the scope touches no
    // root count and survives a collection like any other rooted box.
    let mut scope: GcScope<String> = GcScope::new();
    let target = scope.allocate(String::from("target")).unwrap();
    let h = scope.allocate(String::from("before")).unwrap();
    let c = scope.clone_handle(&target);
    scope.push_ref(&h, c);
    scope.set_value(&h, String::from("after"));
    assert_eq!(*scope.get(&h), String::from("after"));
    assert_eq!(scope.root_count(&h), 1);
    assert_eq!(scope.root_count(&target), 1);
    scope.collect_garbage();
    assert_eq!(*scope.get(&h), String::from("after"));
    assert_eq!(scope.live_boxes(), 2);
    scope.drop_handle(h);
    scope.drop_handle(target);
    scope.collect_garbage();
    assert_eq!(scope.live_boxes(), 0);
}

#[test]
fn collect_is_idempotent() {
    let mut scope: GcScope<String> = GcScope::new();
    let a = scope.allocate(String::from("a")).unwrap();
    let b = scope.allocate(String::from("b")).unwrap();
    let c = scope.clone_handle(&b);
    scope.push_ref(&a, c);
    scope.drop_handle(b);
    let garbage = scope.allocate(String::from("garbage")).unwrap();
    scope.drop_handle(garbage);
    scope.collect_garbage();
    let live_once = scope.live_boxes();
    let bytes_once = scope.allocated_bytes();
    scope.collect_garbage();
    assert_eq!(scope.live_boxes(), live_once);
    assert_eq!(scope.allocated_bytes(), bytes_once);
    assert_eq!(live_once, 2);
    scope.drop_handle(a);
}

#[test]
fn mark_bits_clear_after_collect() {
    let mut scope: GcScope<String> = GcScope::new();
    let a = scope.allocate(String::from("a")).unwrap();
    let b = scope.allocate(String::from("b")).unwrap();
    let c = scope.clone_handle(&b);
    scope.push_ref(&a, c);
    scope.collect_garbage();
    for slot in scope.state.boxes.iter() {
        if let Some(gc_box) = slot {
            assert!(!gc_box.marked);
        }
    }
    scope.drop_handle(a);
    scope.drop_handle(b);
}

#[test]
fn allocated_bytes_counts_box_sizes() {
    let mut scope: GcScope<String> = GcScope::new();
    assert_eq!(scope.allocated_bytes(), 0);
    let h = scope.allocate(String::from("one")).unwrap();
    let per_box = std::mem::size_of::<scoped_gc::GcBox<String>>();
    assert_eq!(scope.allocated_bytes(), per_box);
    let h2 = scope.allocate(String::from("two")).unwrap();
    assert_eq!(scope.allocated_bytes(), 2 * per_box);
    scope.drop_handle(h2);
    scope.collect_garbage();
    assert_eq!(scope.allocated_bytes(), per_box);
    scope.drop_handle(h);
}

#[test]
fn teardown_drops_every_box_once() {
    // An arbitrary graph with cycles, never collected: teardown accounts
    // for every box exactly once.
    let mut scope: GcScope<String> = GcScope::new();
    let mut handles = Vec::new();
    for i in 0..5 {
        handles.push(scope.allocate(format!("node{}", i)).unwrap());
    }
    for i in 0..5 {
        let target = scope.clone_handle(&handles[(i + 1) % 5]);
        scope.push_ref(&handles[i], target);
    }
    let dropped = scope.teardown();
    assert_eq!(dropped, 5);
}

#[test]
fn teardown_after_collect_accounts_for_the_rest() {
    let mut scope: GcScope<String> = GcScope::new();
    let keep = scope.allocate(String::from("keep")).unwrap();
    let lose = scope.allocate(String::from("lose")).unwrap();
    scope.drop_handle(lose);
    scope.collect_garbage();
    assert_eq!(scope.live_boxes(), 1);
    let dropped = scope.teardown();
    assert_eq!(dropped, 1);
    let _ = keep;
}
