use std::sync::atomic::Ordering;

use circ::{AtomicRc, Domain, EdgeTaker, EpochGuard, Pointer, Rc, RcObject};

struct QNode {
    item: Option<u64>,
    next: AtomicRc<QNode>,
}

impl RcObject for QNode {
    fn pop_edges(&mut self, out: &mut EdgeTaker<Self>) {
        out.take(&mut self.next);
    }
}

struct Queue {
    head: AtomicRc<QNode>,
    tail: AtomicRc<QNode>,
}

impl Queue {
    fn new(d: &mut Domain<QNode>) -> Self {
        let sentinel = Rc::new(QNode { item: None, next: AtomicRc::null() }, d);
        let other = sentinel.clone(d);
        Queue { head: AtomicRc::from_rc(other), tail: AtomicRc::from_rc(sentinel) }
    }

    fn enqueue(&mut self, item: u64, d: &mut Domain<QNode>, g: &EpochGuard) {
        let node = Rc::new(QNode { item: Some(item), next: AtomicRc::null() }, d);
        let link = node.clone(d);
        let last = self.tail.load(Ordering::Acquire, g).as_ptr();
        let global = d.global_epoch();
        let prev = d.get_mut(last).unwrap().next.swap(link, Ordering::SeqCst, global);
        prev.finalize(d, g);
        let old_tail = self.tail.swap(node, Ordering::SeqCst, global);
        old_tail.finalize(d, g);
    }

    fn dequeue(&mut self, d: &mut Domain<QNode>, g: &EpochGuard) -> Option<u64> {
        let first = self.head.load(Ordering::Acquire, g);
        let next = first.as_ref(d).unwrap().next.load(Ordering::Acquire, g);
        if next.is_null() {
            return None;
        }
        let item = next.as_ref(d).unwrap().item;
        let new_head = next.counted(d);
        let global = d.global_epoch();
        let old = self.head.swap(new_head, Ordering::SeqCst, global);
        old.finalize(d, g);
        item
    }
}

#[test]
fn simple() {
    let mut d: Domain<QNode> = Domain::new();
    let p = d.register();
    let mut g = d.pin(p);
    let mut queue = Queue::new(&mut d);
    assert!(queue.dequeue(&mut d, &g).is_none());
    queue.enqueue(1, &mut d, &g);
    queue.enqueue(2, &mut d, &g);
    queue.enqueue(3, &mut d, &g);
    assert_eq!(queue.dequeue(&mut d, &g), Some(1));
    assert_eq!(queue.dequeue(&mut d, &g), Some(2));
    assert_eq!(queue.dequeue(&mut d, &g), Some(3));
    assert!(queue.dequeue(&mut d, &g).is_none());
    // The sentinel and the first two nodes are gone once two epochs have passed.
    d.repin(&mut g);
    d.repin(&mut g);
    assert_eq!(d.deferred_len(), 0);
    let disposed = (0..4).filter(|i| d.is_disposed(circ::Tagged::new((*i as u64 + 1) << 16))).count();
    assert_eq!(disposed, 3);
}

struct Shared {
    domain: Domain<QNode>,
    queue: Queue,
}

#[test]
fn queue_shared_by_threads_loses_nothing() {
    const THREADS: usize = 16;
    const PER_THREAD: usize = 2000;
    let mut domain: Domain<QNode> = Domain::new();
    let queue = Queue::new(&mut domain);
    let shared = std::sync::Mutex::new(Shared { domain, queue });
    crossbeam::thread::scope(|s| {
        for t in 0..THREADS {
            let shared = &shared;
            s.spawn(move |_| {
                let p = shared.lock().unwrap().domain.register();
                for i in 0..PER_THREAD {
                    let mut guard = shared.lock().unwrap();
                    let Shared { domain, queue } = &mut *guard;
                    let mut g = domain.pin(p);
                    queue.enqueue((t * PER_THREAD + i) as u64, domain, &g);
                    domain.repin(&mut g);
                    domain.unpin(g);
                }
            });
        }
    })
    .unwrap();
    let found = std::sync::Mutex::new(vec![0u32; THREADS * PER_THREAD]);
    crossbeam::thread::scope(|s| {
        for _ in 0..THREADS {
            let shared = &shared;
            let found = &found;
            s.spawn(move |_| {
                let p = shared.lock().unwrap().domain.register();
                for _ in 0..PER_THREAD {
                    let mut guard = shared.lock().unwrap();
                    let Shared { domain, queue } = &mut *guard;
                    let mut g = domain.pin(p);
                    let v = queue.dequeue(domain, &g).unwrap();
                    domain.repin(&mut g);
                    domain.unpin(g);
                    found.lock().unwrap()[v as usize] += 1;
                }
            });
        }
    })
    .unwrap();
    assert!(found.lock().unwrap().iter().all(|c| *c == 1));
    let mut guard = shared.lock().unwrap();
    let Shared { domain, queue } = &mut *guard;
    let g = domain.unprotected();
    assert!(queue.dequeue(domain, &g).is_none());
}
