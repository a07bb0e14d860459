use std::sync::atomic::Ordering;

use circ::{AtomicRc, CsEBR, Domain, EdgeTaker, Pointer, Rc, RcObject};

struct Node {
    item: u64,
    next: AtomicRc<Node>,
}

impl RcObject for Node {
    fn pop_edges(&mut self, out: &mut EdgeTaker<Self>) {
        out.take(&mut self.next);
    }
}

/// Builds a chain of `len` nodes; returns its head and the words of all nodes.
fn chain(d: &mut Domain<Node>, len: u64) -> (Rc<Node>, Vec<circ::Raw<Node>>) {
    let mut words = Vec::new();
    let mut head = Rc::new(Node { item: 0, next: AtomicRc::null() }, d);
    words.push(head.as_ptr());
    for i in 1..len {
        head = Rc::new(Node { item: i, next: AtomicRc::from_rc(head) }, d);
        words.push(head.as_ptr());
    }
    (head, words)
}

#[test]
fn aged_chain_is_destroyed_in_one_pass() {
    let mut d: Domain<Node> = Domain::new();
    let (head, words) = chain(&mut d, 200_000);
    assert!(d.try_advance());
    assert!(d.try_advance());
    let p = d.register();
    let mut g = d.pin(p);
    assert_eq!(g.epoch(), 2);
    head.finalize(&mut d, &g);
    assert_eq!(d.deferred_len(), 1);
    d.repin(&mut g);
    d.repin(&mut g);
    // The edges were stamped two or more epochs before the guard's epoch: every
    // node went in the same pass, and nothing more was deferred.
    assert!(words.iter().all(|w| d.is_disposed(*w) && d.is_freed(*w)));
    assert_eq!(d.deferred_len(), 0);
}

#[test]
fn fresh_edge_is_deferred() {
    let mut d: Domain<Node> = Domain::new();
    let p = d.register();
    let mut g = d.pin(p);
    let tail = Rc::new(Node { item: 1, next: AtomicRc::null() }, &mut d);
    let wt = tail.as_ptr();
    let head = Rc::new(Node { item: 0, next: AtomicRc::null() }, &mut d);
    let wh = head.as_ptr();
    // The head loses its last handle at epoch 2; a reader that still holds it
    // stores an edge at epoch 3; the guard that destroys the head holds epoch 4,
    // so the edge is too young for its target to be destroyed at once.
    d.repin(&mut g);
    d.repin(&mut g);
    head.finalize(&mut d, &g);
    d.repin(&mut g);
    let global = d.global_epoch();
    assert_eq!(global, 3);
    let prev = d.get_mut(wh).unwrap().next.swap(tail, Ordering::SeqCst, global);
    assert!(prev.is_null());
    d.repin(&mut g);
    assert_eq!(g.epoch(), 4);
    assert!(d.is_disposed(wh));
    assert!(!d.is_disposed(wt));
    assert_eq!(d.strong_count(wt), 0);
    assert_eq!(d.destruct_epoch(wt), 4);
    assert_eq!(d.deferred_len(), 1);
    d.repin(&mut g);
    d.repin(&mut g);
    assert!(d.is_disposed(wt));
}

#[test]
fn shared_target_survives_its_first_parent() {
    let mut d: Domain<Node> = Domain::new();
    let g = d.unprotected();
    let shared = Rc::new(Node { item: 9, next: AtomicRc::null() }, &mut d);
    let ws = shared.as_ptr();
    let second = shared.clone(&mut d);
    let a = Rc::new(Node { item: 1, next: AtomicRc::from_rc(shared) }, &mut d);
    let b = Rc::new(Node { item: 2, next: AtomicRc::from_rc(second) }, &mut d);
    a.finalize(&mut d, &g);
    assert!(!d.is_disposed(ws));
    assert_eq!(d.strong_count(ws), 1);
    b.finalize(&mut d, &g);
    assert!(d.is_disposed(ws));
}

#[test]
fn pinned_participant_holds_the_epoch_back() {
    let mut d: Domain<Node> = Domain::new();
    let a = d.register();
    let b = d.register();
    let ga = d.pin(a);
    let mut gb = d.pin(b);
    let rc = Rc::new(Node { item: 0, next: AtomicRc::null() }, &mut d);
    let w = rc.as_ptr();
    rc.finalize(&mut d, &gb);
    d.repin(&mut gb);
    d.repin(&mut gb);
    d.repin(&mut gb);
    // `a` still holds epoch 0, so the epoch cannot pass 1 and nothing is freed.
    assert_eq!(d.global_epoch(), 1);
    assert!(!d.is_disposed(w));
    d.unpin(ga);
    d.repin(&mut gb);
    d.repin(&mut gb);
    assert!(d.is_disposed(w));
}

#[test]
fn thread_critical_section_pins_and_repins() {
    let mut cs = CsEBR::new();
    assert!(cs.is_protected());
    cs.clear();
    assert!(cs.is_protected());
    let mut un = CsEBR::unprotected();
    un.clear();
    assert!(!un.is_protected());
}

#[test]
fn edge_stamped_after_the_guard_is_deferred() {
    let mut d: Domain<Node> = Domain::new();
    let a = d.register();
    let stale = d.pin(a);
    let tail = Rc::new(Node { item: 1, next: AtomicRc::null() }, &mut d);
    let wt = tail.as_ptr();
    let head = Rc::new(Node { item: 0, next: AtomicRc::null() }, &mut d);
    let wh = head.as_ptr();
    head.finalize(&mut d, &stale);
    let again = d.pin(a);
    d.unpin(again);
    assert!(d.try_advance());
    // The edge is stamped at epoch 1, after the epoch 0 of the guard that will
    // destroy the head: it reads as newer than the guard, so its target waits.
    let global = d.global_epoch();
    let prev = d.get_mut(wh).unwrap().next.swap(tail, Ordering::SeqCst, global);
    assert!(prev.is_null());
    assert!(d.try_advance());
    d.collect(&stale);
    assert!(d.is_disposed(wh));
    assert!(!d.is_disposed(wt));
    assert_eq!(d.strong_count(wt), 0);
    assert_eq!(d.deferred_len(), 1);
}
