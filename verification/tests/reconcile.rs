use rig_memory_policy::reconcile::{DuplicateResolver, ExactHashResolver, ReconcileOp};

#[test]
fn exact_duplicate_is_noop() {
    let resolver = ExactHashResolver::new(&["hello world"]);
    assert_eq!(resolver.reconcile("hello world"), ReconcileOp::Noop);
}

#[test]
fn novel_item_is_add() {
    let resolver = ExactHashResolver::new(&["hello world"]);
    assert_eq!(resolver.reconcile("something else"), ReconcileOp::Add);
}

#[test]
fn whitespace_difference_is_not_an_exact_match() {
    let resolver = ExactHashResolver::new(&["hello world"]);
    assert_eq!(resolver.reconcile("hello  world"), ReconcileOp::Add);
}

#[test]
fn observe_makes_future_items_noop() {
    let mut resolver = ExactHashResolver::default();
    assert!(resolver.is_empty());
    assert_eq!(resolver.reconcile("note"), ReconcileOp::Add);
    resolver.observe("note");
    assert_eq!(resolver.len(), 1);
    assert_eq!(resolver.reconcile("note"), ReconcileOp::Noop);
}

#[test]
fn repeated_seeds_count_once() {
    let resolver = ExactHashResolver::new(&["a", "b", "a"]);
    assert_eq!(resolver.len(), 2);
    assert!(!resolver.is_empty());
    assert_eq!(resolver.reconcile("b"), ReconcileOp::Noop);
}

#[test]
fn observing_twice_keeps_one_entry() {
    let mut resolver = ExactHashResolver::new(&[]);
    resolver.observe("x");
    resolver.observe("x");
    assert_eq!(resolver.len(), 1);
    assert_eq!(resolver.reconcile("x"), ReconcileOp::Noop);
    assert_eq!(resolver.reconcile("y"), ReconcileOp::Add);
}
