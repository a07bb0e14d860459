use std::sync::atomic::Ordering;

use circ::{AtomicRc, Domain, EdgeTaker, OwnRc, Pointer, Rc, RcObject, Snapshot};

struct Node {
    item: u64,
    next: AtomicRc<Node>,
}

impl RcObject for Node {
    fn pop_edges(&mut self, out: &mut EdgeTaker<Self>) {
        out.take(&mut self.next);
    }
}

fn leaf(item: u64) -> Node {
    Node { item, next: AtomicRc::null() }
}

fn advance(d: &mut Domain<Node>, times: usize) {
    for _ in 0..times {
        assert!(d.try_advance());
    }
}

#[test]
fn store_then_swap_hands_back_the_stored() {
    let mut d: Domain<Node> = Domain::new();
    advance(&mut d, 3);
    let p = d.register();
    let g = d.pin(p);
    let x = Rc::new(leaf(1), &mut d);
    let y = Rc::new(leaf(2), &mut d);
    let xs = x.snapshot(&g);
    let mut slot = AtomicRc::null();
    slot.store(x, Ordering::SeqCst, &mut d, &g);
    // The stored word carries the epoch of the store, which ptr_eq ignores.
    assert_eq!(slot.as_ptr().high_tag(), 3);
    assert!(slot.load(Ordering::Acquire, &g).ptr_eq(xs));
    let back = slot.swap(y, Ordering::SeqCst, d.global_epoch());
    assert!(back.snapshot(&g).ptr_eq(xs));
    assert_eq!(back.as_ref(&d).map(|n| n.item), Some(1));
    assert_eq!(slot.load(Ordering::Relaxed, &g).as_ref(&d).map(|n| n.item), Some(2));
}

#[test]
fn store_gives_back_the_previous_unit() {
    let mut d: Domain<Node> = Domain::new();
    let g = d.unprotected();
    let x = Rc::new(leaf(1), &mut d);
    let wx = x.as_ptr();
    let mut slot = AtomicRc::from_rc(x);
    let y = Rc::new(leaf(2), &mut d);
    slot.store(y, Ordering::SeqCst, &mut d, &g);
    assert!(d.is_disposed(wx));
    slot.finalize(&mut d, &g);
    assert_eq!(d.deferred_len(), 0);
}

#[test]
fn atomic_new_holds_one_unit() {
    let mut d: Domain<Node> = Domain::new();
    let g = d.unprotected();
    let slot = AtomicRc::new(leaf(3), &mut d);
    assert_eq!(d.strong_count(slot.as_ptr()), 1);
    assert_eq!(slot.load(Ordering::SeqCst, &g).as_ref(&d).map(|n| n.item), Some(3));
    let n: AtomicRc<Node> = AtomicRc::null();
    assert!(n.load(Ordering::SeqCst, &g).is_null());
}

#[test]
fn compare_exchange_succeeds_on_the_same_pointer() {
    let mut d: Domain<Node> = Domain::new();
    advance(&mut d, 1);
    let g = d.unprotected();
    let x = Rc::new(leaf(1), &mut d);
    let bare = x.snapshot(&g);
    let mut slot = AtomicRc::null();
    slot.store(x, Ordering::SeqCst, &mut d, &g);
    let cur = slot.load(Ordering::SeqCst, &g);
    // The expected pointer carries no stamp, the stored one does: they still match.
    assert_eq!(cur.as_ptr().high_tag(), 1);
    assert_eq!(bare.as_ptr().high_tag(), 0);
    assert!(Snapshot::<Node>::null().is_null());
    let y = Rc::new(leaf(2), &mut d);
    let wy = y.as_ptr();
    let old = slot.compare_exchange(bare, y, Ordering::SeqCst, Ordering::SeqCst, 5, &g);
    let old = match old {
        Ok(rc) => rc,
        Err(_) => panic!("the slot held the expected pointer"),
    };
    assert!(old.snapshot(&g).ptr_eq(cur));
    assert_eq!(slot.as_ptr().high_tag(), 5);
    assert_eq!(slot.as_ptr().as_raw(), wy.as_raw());
}

#[test]
fn compare_exchange_fails_on_another_pointer() {
    let mut d: Domain<Node> = Domain::new();
    let g = d.unprotected();
    let x = Rc::new(leaf(1), &mut d);
    let xs = x.snapshot(&g);
    let mut slot = AtomicRc::from_rc(x);
    let y = Rc::new(leaf(2), &mut d);
    let wy = y.as_ptr();
    let r = slot.compare_exchange_weak(Snapshot::null(), y, Ordering::SeqCst, Ordering::Relaxed, 0, &g);
    match r {
        Ok(_) => panic!("the slot did not hold null"),
        Err(e) => {
            assert!(e.current.ptr_eq(xs));
            assert!(e.desired.as_ptr() == wy);
        }
    }
    assert!(slot.load(Ordering::SeqCst, &g).ptr_eq(xs));
}

#[test]
fn compare_exchange_tag_with_same_tag_is_a_no_op() {
    let mut d: Domain<Node> = Domain::new();
    let g = d.unprotected();
    let x = Rc::new(leaf(1), &mut d).with_tag(1);
    let w = x.as_ptr();
    let mut slot = AtomicRc::from_rc(x);
    let s = slot.load(Ordering::SeqCst, &g);
    let r = slot.compare_exchange_tag(s, s.tag(), Ordering::SeqCst, Ordering::SeqCst, d.global_epoch(), &g);
    assert!(r.is_ok());
    assert!(slot.load(Ordering::SeqCst, &g).ptr_eq(s));
    assert_eq!(slot.load(Ordering::SeqCst, &g).tag(), 1);
    assert_eq!(d.strong_count(w), 1);
}

#[test]
fn tag_compare_exchange_has_one_winner() {
    let mut d: Domain<Node> = Domain::new();
    let g = d.unprotected();
    let x = Rc::new(leaf(1), &mut d);
    let raw = x.as_ptr().as_raw();
    let mut slot = AtomicRc::from_rc(x);
    let start = slot.load(Ordering::SeqCst, &g);
    assert_eq!(start.tag(), 0);
    let mut wins = 0;
    for t in 1..=7u64 {
        let r = slot.compare_exchange_tag(start, t, Ordering::SeqCst, Ordering::SeqCst, 0, &g);
        match r {
            Ok(prev) => {
                wins += 1;
                assert!(prev.ptr_eq(start));
            }
            Err(e) => {
                assert_eq!(e.desired.tag(), t);
                assert_eq!(e.current.tag(), 1);
            }
        }
    }
    assert_eq!(wins, 1);
    assert_eq!(slot.load(Ordering::SeqCst, &g).tag(), 1);
    assert_eq!(slot.as_ptr().as_raw(), raw);
    assert_eq!(d.strong_count(slot.as_ptr()), 1);
}

#[test]
fn take_leaves_null() {
    let mut d: Domain<Node> = Domain::new();
    let g = d.unprotected();
    let mut slot = AtomicRc::new(leaf(4), &mut d);
    let w = slot.as_ptr();
    let rc = slot.take();
    assert!(Pointer::is_null(&slot));
    assert!(rc.as_ptr() == w);
    let mut holder = rc;
    let again = holder.take();
    assert!(holder.is_null());
    again.finalize(&mut d, &g);
    assert!(d.is_disposed(w));
}

#[test]
fn weak_slot_holds_a_weak_unit() {
    let mut d: Domain<Node> = Domain::new();
    advance(&mut d, 2);
    let g = d.unprotected();
    let rc = Rc::new(leaf(5), &mut d);
    let w = rc.as_ptr();
    let weak = rc.downgrade(&mut d);
    let mut slot = circ::AtomicWeak::null();
    slot.store(weak, Ordering::SeqCst, &mut d);
    assert_eq!(slot.as_ptr().high_tag(), 2);
    assert_eq!(d.weak_count(w), 2);
    let seen = slot.load(Ordering::Acquire, &g);
    assert!(seen.upgrade(&d).is_some());
    let other = rc.downgrade(&mut d);
    let back = slot.swap(other, Ordering::SeqCst, 4);
    assert_eq!(slot.as_ptr().high_tag(), 4);
    back.finalize(&mut d);
    assert_eq!(d.weak_count(w), 2);
    rc.finalize(&mut d, &g);
    assert!(d.is_disposed(w));
    assert_eq!(d.weak_count(w), 1);
    assert!(!d.is_freed(w));
    slot.finalize(&mut d);
    assert!(d.is_freed(w));
}

#[test]
fn weak_clone_adds_a_unit() {
    let mut d: Domain<Node> = Domain::new();
    let rc = Rc::new(leaf(6), &mut d);
    let weak = rc.downgrade(&mut d);
    let twin = weak.clone(&mut d);
    assert!(twin.as_ptr() == weak.as_ptr());
    assert_eq!(d.weak_count(rc.as_ptr()), 3);
    twin.finalize(&mut d);
    weak.finalize(&mut d);
    assert_eq!(d.weak_count(rc.as_ptr()), 1);
    // The ticket of the strong handles is not a weak handle's to give back.
    let stray = circ::Weak::null();
    stray.finalize(&mut d);
    assert_eq!(d.weak_count(rc.as_ptr()), 1);
}

#[test]
fn defaults_are_null() {
    let r: Rc<Node> = Rc::default();
    let a: AtomicRc<Node> = AtomicRc::default();
    let s: Snapshot<'_, Node> = Snapshot::default();
    assert!(r.is_null() && Pointer::is_null(&a) && s.is_null());
}
