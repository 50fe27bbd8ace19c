use scoped_gc::Gc;
use scoped_gc::GcRefCell;
use scoped_gc::GcScope;
use scoped_gc::Trace;

#[derive(Debug)]
pub struct NamedObject {
    pub name: String,
}

impl Trace for NamedObject {
    fn mark(&self) {}
    fn root(&self) {}
    fn unroot(&self) {}
}

#[test]
fn test_gc_simple() {
    let mut scope: GcScope<String> = GcScope::new();
    scope.allocate(String::from("foo")).unwrap();
}

#[test]
fn test_gc() {
    let mut scope: GcScope<NamedObject> = GcScope::new();
    let n1: Gc;
    {
        let n2: Gc = scope
            .allocate(NamedObject { name: String::from("Hello, World!") })
            .unwrap();
        n1 = scope.clone_handle(&n2);
        scope.drop_handle(n2);
    }
    assert_eq!(scope.get(&n1).name, String::from("Hello, World!"));
}

#[test]
fn test_gc_ref() {
    let a: String = String::from("Hello, World!");
    {
        let mut scope: GcScope<String> = GcScope::new();
        let n: Gc = scope.allocate(a).unwrap();
        assert_eq!(*scope.get(&n), String::from("Hello, World!"));
    }
}

#[test]
fn test_gc_circular() {
    let mut scope: GcScope<String> = GcScope::new();
    let n1 = scope.allocate(String::from("n1")).unwrap();
    let n2 = scope.allocate(String::from("n2")).unwrap();
    let c2 = scope.clone_handle(&n2);
    scope.push_ref(&n1, c2);
    let c1 = scope.clone_handle(&n1);
    scope.push_ref(&n2, c1);
    scope.drop_handle(n1);
    scope.drop_handle(n2);
}

#[test]
fn test_gc_tree() {
    let mut scope: GcScope<()> = GcScope::new();
    // Create nodes
    let root = scope.allocate(()).unwrap();
    let child1 = scope.allocate(()).unwrap();
    let child2 = scope.allocate(()).unwrap();
    // Add first child
    let c1 = scope.clone_handle(&child1);
    scope.push_ref(&root, c1);
    let p1 = scope.clone_handle(&root);
    scope.push_ref(&child1, p1);
    // Add second child
    let c2 = scope.clone_handle(&child2);
    scope.push_ref(&root, c2);
    let p2 = scope.clone_handle(&root);
    scope.push_ref(&child2, p2);
}

#[test]
fn alloc_cell_with_payload_handles() {
    // Allocating a payload that holds rooted handles unroots them: the
    // targets' root counts drop back to what the loose handles alone
    // contribute, and the new box starts with exactly one root.
    let mut scope: GcScope<String> = GcScope::new();
    let a = scope.allocate(String::from("a")).unwrap();
    let b = scope.allocate(String::from("b")).unwrap();
    assert_eq!(scope.root_count(&a), 1);
    assert_eq!(scope.root_count(&b), 1);
    let mut cell = GcRefCell::new(String::from("outer"));
    let ca = scope.clone_handle(&a);
    cell.push_ref(ca);
    let cb = scope.clone_handle(&b);
    cell.push_ref(cb);
    assert_eq!(scope.root_count(&a), 2);
    assert_eq!(scope.root_count(&b), 2);
    let outer = scope.allocate_cell(cell).unwrap();
    assert_eq!(scope.root_count(&a), 1);
    assert_eq!(scope.root_count(&b), 1);
    assert_eq!(scope.root_count(&outer), 1);
    // Dropping the outer handle takes its box's root count to zero, and
    // the next collection reclaims it; a and b stay, being rooted.
    scope.drop_handle(outer);
    scope.collect_garbage();
    assert_eq!(scope.live_boxes(), 2);
}

#[test]
fn clone_then_drop_is_no_op_on_root_counts() {
    let mut scope: GcScope<String> = GcScope::new();
    let h = scope.allocate(String::from("x")).unwrap();
    assert_eq!(scope.root_count(&h), 1);
    let h2 = scope.clone_handle(&h);
    assert_eq!(scope.root_count(&h), 2);
    scope.drop_handle(h2);
    assert_eq!(scope.root_count(&h), 1);
}
