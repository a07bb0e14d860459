use circ::{AtomicRc, Domain, EdgeTaker, Pointer, Rc, RcObject, Weak};

struct Node {
    item: u64,
    next: AtomicRc<Node>,
}

impl RcObject for Node {
    fn pop_edges(&mut self, out: &mut EdgeTaker<Self>) {
        out.take(&mut self.next);
    }
}

fn leaf(item: u64) -> Node {
    Node { item, next: AtomicRc::null() }
}

#[test]
fn new_handle_counts_one() {
    let mut d: Domain<Node> = Domain::new();
    let rc = Rc::new(leaf(7), &mut d);
    assert_eq!(d.strong_count(rc.as_ptr()), 1);
    assert_eq!(d.weak_count(rc.as_ptr()), 1);
    assert!(!d.is_disposed(rc.as_ptr()));
    assert_eq!(rc.as_ref(&d).map(|n| n.item), Some(7));
    assert_eq!(rc.deref(&d).item, 7);
    assert_eq!(rc.tag(), 0);
    assert!(!Pointer::is_null(&rc));
}

#[test]
fn null_handle_owns_nothing() {
    let mut d: Domain<Node> = Domain::new();
    let g = d.unprotected();
    let n: Rc<Node> = Rc::null();
    assert!(n.is_null());
    assert!(n.as_ref(&d).is_none());
    assert_eq!(d.strong_count(n.as_ptr()), 0);
    n.finalize(&mut d, &g);
    assert_eq!(d.deferred_len(), 0);
}

#[test]
fn clone_then_finalize_keeps_strong() {
    let mut d: Domain<Node> = Domain::new();
    let p = d.register();
    let g = d.pin(p);
    let rc = Rc::new(leaf(1), &mut d);
    let c = rc.clone(&mut d);
    assert_eq!(d.strong_count(rc.as_ptr()), 2);
    assert!(c.ptr_eq(&rc));
    c.finalize(&mut d, &g);
    assert_eq!(d.strong_count(rc.as_ptr()), 1);
    assert_eq!(d.deferred_len(), 0);
}

#[test]
fn counted_then_finalize_keeps_strong() {
    let mut d: Domain<Node> = Domain::new();
    let p = d.register();
    let g = d.pin(p);
    let rc = Rc::new(leaf(2), &mut d);
    let s = rc.snapshot(&g);
    let c = s.counted(&mut d);
    assert_eq!(d.strong_count(rc.as_ptr()), 2);
    c.finalize(&mut d, &g);
    assert_eq!(d.strong_count(rc.as_ptr()), 1);
    assert_eq!(d.deferred_len(), 0);
}

#[test]
fn last_handle_defers_destruction() {
    let mut d: Domain<Node> = Domain::new();
    let p = d.register();
    let mut g = d.pin(p);
    let rc = Rc::new(leaf(3), &mut d);
    let w = rc.as_ptr();
    rc.finalize(&mut d, &g);
    assert_eq!(d.strong_count(w), 0);
    assert_eq!(d.destruct_epoch(w), 0);
    assert_eq!(d.deferred_len(), 1);
    assert!(!d.is_disposed(w));
    // The participant still holds epoch 0: the collector moves to 1 and stops.
    assert!(d.try_advance());
    assert!(!d.try_advance());
    d.collect(&g);
    assert!(!d.is_disposed(w));
    // Repinning lets the epoch reach 2, and the destruction runs.
    d.repin(&mut g);
    assert_eq!(d.global_epoch(), 2);
    assert_eq!(g.epoch(), 2);
    assert!(d.is_disposed(w));
    assert!(d.is_freed(w));
    assert_eq!(d.deferred_len(), 0);
}

#[test]
fn unprotected_guard_destroys_at_once() {
    let mut d: Domain<Node> = Domain::new();
    let g = d.unprotected();
    assert!(g.unprotected());
    let rc = Rc::new(leaf(4), &mut d);
    let w = rc.as_ptr();
    rc.finalize(&mut d, &g);
    assert!(d.is_disposed(w));
    assert!(d.is_freed(w));
    assert_eq!(d.deferred_len(), 0);
}

#[test]
fn resurrection_destroys_exactly_once() {
    let mut d: Domain<Node> = Domain::new();
    let p = d.register();
    let mut g = d.pin(p);
    let rc = Rc::new(leaf(5), &mut d);
    let w = rc.as_ptr();
    let s = rc.snapshot(&g);
    rc.finalize(&mut d, &g);
    assert_eq!(d.strong_count(w), 0);
    // A reader that saw the pointer before the drop takes a handle.
    let back = s.counted(&mut d);
    assert_eq!(d.strong_count(w), 2);
    d.repin(&mut g);
    d.repin(&mut g);
    // The deferred destruction found the count above zero and gave back its unit.
    assert_eq!(d.strong_count(w), 1);
    assert!(!d.is_disposed(w));
    back.finalize(&mut d, &g);
    assert_eq!(d.strong_count(w), 0);
    assert_eq!(d.deferred_len(), 1);
    d.repin(&mut g);
    d.repin(&mut g);
    assert!(d.is_disposed(w));
    assert!(d.is_freed(w));
    assert_eq!(d.weak_count(w), 0);
}

#[test]
fn new_many_destroyed_once() {
    let mut d: Domain<Node> = Domain::new();
    let p = d.register();
    let mut g = d.pin(p);
    let rcs = Rc::new_many::<4>(leaf(6), &mut d);
    assert_eq!(rcs.len(), 4);
    let w = rcs[0].as_ptr();
    assert_eq!(d.strong_count(w), 4);
    let mut left = 4;
    for rc in rcs {
        rc.finalize(&mut d, &g);
        left -= 1;
        assert_eq!(d.strong_count(w), left);
        assert_eq!(d.deferred_len(), if left == 0 { 1 } else { 0 });
    }
    d.repin(&mut g);
    d.repin(&mut g);
    assert!(d.is_disposed(w));
    assert_eq!(d.deferred_len(), 0);
}

#[test]
fn new_many_iter_hands_out_and_aborts() {
    let mut d: Domain<Node> = Domain::new();
    let p = d.register();
    let g = d.pin(p);
    let mut it = Rc::new_many_iter(leaf(8), 5, &mut d);
    let a = it.next().unwrap();
    let b = it.next().unwrap();
    let w = a.as_ptr();
    assert!(a.ptr_eq(&b));
    assert_eq!(d.strong_count(w), 5);
    it.abort(&mut d, &g);
    assert_eq!(d.strong_count(w), 2);
    a.finalize(&mut d, &g);
    b.finalize(&mut d, &g);
    assert_eq!(d.strong_count(w), 0);
    assert_eq!(d.deferred_len(), 1);
}

#[test]
fn new_many_iter_runs_dry() {
    let mut d: Domain<Node> = Domain::new();
    let mut it = Rc::new_many_iter(leaf(9), 1, &mut d);
    assert!(it.next().is_some());
    assert!(it.next().is_none());
}

#[test]
fn weak_handles_outlive_the_object() {
    let mut d: Domain<Node> = Domain::new();
    let g = d.unprotected();
    let rc = Rc::new(leaf(10), &mut d);
    let w = rc.as_ptr();
    let weak = rc.downgrade(&mut d);
    assert_eq!(d.weak_count(w), 2);
    let up = weak.upgrade(&mut d).unwrap();
    assert_eq!(d.strong_count(w), 2);
    up.finalize(&mut d, &g);
    rc.finalize(&mut d, &g);
    assert!(d.is_disposed(w));
    assert!(!d.is_freed(w));
    assert_eq!(d.weak_count(w), 1);
    assert!(weak.upgrade(&mut d).is_none());
    weak.finalize(&mut d);
    assert!(d.is_freed(w));
}

#[test]
fn weak_many_adds_weak_units() {
    let mut d: Domain<Node> = Domain::new();
    let rc = Rc::new(leaf(11), &mut d);
    let ws = rc.weak_many::<3>(&mut d);
    assert_eq!(ws.len(), 3);
    assert_eq!(d.weak_count(rc.as_ptr()), 4);
    assert!(ws.iter().all(|w| !w.is_null()));
    let n: Weak<Node> = Weak::null();
    assert!(n.is_null());
}

#[test]
fn weak_snapshot_upgrades_while_strong() {
    let mut d: Domain<Node> = Domain::new();
    let p = d.register();
    let g = d.pin(p);
    let rc = Rc::new(leaf(12), &mut d);
    let ws = rc.snapshot(&g).downgrade();
    assert!(ws.upgrade(&d).is_some());
    rc.finalize(&mut d, &g);
    assert!(ws.upgrade(&d).is_none());
}

#[test]
fn deref_mut_changes_the_object_only() {
    let mut d: Domain<Node> = Domain::new();
    let rc = Rc::new(leaf(13), &mut d);
    rc.deref_mut(&mut d).item = 14;
    assert_eq!(rc.deref(&d).item, 14);
    if let Some(n) = rc.as_mut(&mut d) {
        n.item = 15;
    }
    assert_eq!(rc.snapshot(&d.unprotected()).as_ref(&d).map(|n| n.item), Some(15));
    assert_eq!(d.strong_count(rc.as_ptr()), 1);
}
