//! Epoch-based reclamation: a global epoch, the participants that pin it, and
//! the work deferred until no pinned participant can still observe its object.
use vstd::prelude::*;

use crate::domain::Raw;
use crate::tagged::{with_tag_of, Tagged};
use crate::inner::RcInner;

verus! {

/// The participant index that marks an unprotected guard.
pub const UNPROTECTED: usize = usize::MAX;

/// A participant: whether it is pinned, and the epoch it pinned.
#[derive(Clone, Copy, PartialEq, Eq, Structural, Debug)]
pub struct Local {
    pub pinned: bool,
    pub epoch: u64,
}

/// A deferred destruction: the block it is for, and the global epoch at which it
/// was deferred.
#[derive(Clone, Copy, PartialEq, Eq, Structural, Debug)]
pub struct Deferred {
    pub block: usize,
    pub epoch: u64,
}

/// A deferred item may run once the global epoch is two ahead of its epoch.
pub open spec fn expired(d: Deferred, global: u64) -> bool {
    d.epoch + 2 <= global
}

/// A participant's pin, or the unprotected guard under which deferred work runs
/// at once.
pub struct EpochGuard {
    local: usize,
    epoch: u64,
}

impl EpochGuard {
    /// The participant that this guard pins.
    pub closed spec fn spec_local(&self) -> usize {
        self.local
    }

    /// The epoch pinned when this guard was taken.
    pub closed spec fn spec_epoch(&self) -> u64 {
        self.epoch
    }

    /// An unprotected guard pins nothing.
    pub open spec fn is_unprotected(&self) -> bool {
        self.spec_local() == UNPROTECTED
    }

    /// Returns the epoch pinned when this guard was taken.
    pub fn epoch(&self) -> (r: u64)
        ensures
            r == self.spec_epoch(),
    {
        self.epoch
    }

    /// Returns the participant that this guard pins.
    pub fn local(&self) -> (r: usize)
        ensures
            r == self.spec_local(),
    {
        self.local
    }

    /// Returns `true` for an unprotected guard.
    pub fn unprotected(&self) -> (r: bool)
        ensures
            r == self.is_unprotected(),
    {
        self.local == UNPROTECTED
    }
}

/// The global epoch, its participants and the deferred work.
pub struct Collector {
    epoch: u64,
    locals: Vec<Local>,
    bag: Vec<Deferred>,
}

impl Collector {
    /// The global epoch.
    pub closed spec fn spec_global(&self) -> u64 {
        self.epoch
    }

    /// The participants, by index.
    pub closed spec fn spec_locals(&self) -> Seq<Local> {
        self.locals@
    }

    /// The deferred items, oldest first.
    pub closed spec fn spec_bag(&self) -> Seq<Deferred> {
        self.bag@
    }

    /// Each pinned participant holds the global epoch or the one before it, and no
    /// deferred item is newer than the global epoch.
    pub closed spec fn wf(&self) -> bool {
        &&& forall|i: int|
            0 <= i < self.locals@.len() && (#[trigger] self.locals@[i]).pinned ==> {
                &&& self.locals@[i].epoch <= self.epoch
                &&& self.epoch <= self.locals@[i].epoch + 1
            }
        &&& forall|j: int|
            0 <= j < self.bag@.len() ==> (#[trigger] self.bag@[j]).epoch <= self.epoch
    }

    /// A collector at epoch zero, with no participant and no deferred work.
    pub fn new() -> (r: Self)
        ensures
            r.wf(),
            r.spec_global() == 0,
            r.spec_locals() == Seq::<Local>::empty(),
            r.spec_bag() == Seq::<Deferred>::empty(),
    {
        Collector { epoch: 0, locals: Vec::new(), bag: Vec::new() }
    }

    /// Returns the global epoch.
    pub fn global_epoch(&self) -> (r: u64)
        ensures
            r == self.spec_global(),
    {
        self.epoch
    }

    /// Returns the number of deferred items.
    pub fn deferred_len(&self) -> (r: usize)
        ensures
            r == self.spec_bag().len(),
    {
        self.bag.len()
    }

    /// Adds an unpinned participant and returns its index.
    pub fn register(&mut self) -> (id: usize)
        requires
            old(self).wf(),
            old(self).spec_locals().len() < UNPROTECTED,
        ensures
            final(self).wf(),
            id == old(self).spec_locals().len(),
            final(self).spec_locals() == old(self).spec_locals().push(
                Local { pinned: false, epoch: old(self).spec_global() },
            ),
            final(self).spec_global() == old(self).spec_global(),
            final(self).spec_bag() == old(self).spec_bag(),
    {
        let id = self.locals.len();
        self.locals.push(Local { pinned: false, epoch: self.epoch });
        id
    }

    /// Pins participant `local` at the global epoch.
    pub fn pin(&mut self, local: usize) -> (g: EpochGuard)
        requires
            old(self).wf(),
            local < old(self).spec_locals().len(),
        ensures
            final(self).wf(),
            final(self).spec_locals() == old(self).spec_locals().update(
                local as int,
                Local { pinned: true, epoch: old(self).spec_global() },
            ),
            final(self).spec_global() == old(self).spec_global(),
            final(self).spec_bag() == old(self).spec_bag(),
            g.spec_local() == local,
            g.spec_epoch() == old(self).spec_global(),
    {
        let e = self.epoch;
        self.locals.set(local, Local { pinned: true, epoch: e });
        EpochGuard { local, epoch: e }
    }

    /// An unprotected guard: work deferred under it runs at once.
    pub fn unprotected(&self) -> (g: EpochGuard)
        ensures
            g.is_unprotected(),
            g.spec_epoch() == self.spec_global(),
    {
        EpochGuard { local: UNPROTECTED, epoch: self.epoch }
    }

    /// Returns the number of participants.
    pub fn locals_len(&self) -> (r: usize)
        ensures
            r == self.spec_locals().len(),
    {
        self.locals.len()
    }

    /// Releases the pin of participant `local`.
    pub fn unpin_local(&mut self, local: usize)
        requires
            old(self).wf(),
            local < old(self).spec_locals().len(),
        ensures
            final(self).wf(),
            final(self).spec_locals() == old(self).spec_locals().update(
                local as int,
                Local { pinned: false, epoch: old(self).spec_locals()[local as int].epoch },
            ),
            final(self).spec_global() == old(self).spec_global(),
            final(self).spec_bag() == old(self).spec_bag(),
    {
        let e = self.locals[local].epoch;
        self.locals.set(local, Local { pinned: false, epoch: e });
    }

    /// Releases the pin of `guard`'s participant.
    pub fn unpin(&mut self, guard: EpochGuard)
        requires
            old(self).wf(),
        ensures
            final(self).wf(),
            final(self).spec_locals() == if guard.spec_local() < old(self).spec_locals().len() {
                old(self).spec_locals().update(
                    guard.spec_local() as int,
                    Local {
                        pinned: false,
                        epoch: old(self).spec_locals()[guard.spec_local() as int].epoch,
                    },
                )
            } else {
                old(self).spec_locals()
            },
            final(self).spec_global() == old(self).spec_global(),
            final(self).spec_bag() == old(self).spec_bag(),
    {
        if guard.local < self.locals.len() {
            let e = self.locals[guard.local].epoch;
            self.locals.set(guard.local, Local { pinned: false, epoch: e });
        }
    }

    /// Advances the global epoch by one when every pinned participant holds it.
    pub fn try_advance(&mut self) -> (advanced: bool)
        requires
            old(self).wf(),
        ensures
            final(self).wf(),
            advanced == (old(self).spec_global() < u64::MAX && forall|i: int|
                0 <= i < old(self).spec_locals().len() && (#[trigger] old(
                    self,
                ).spec_locals()[i]).pinned ==> old(self).spec_locals()[i].epoch == old(
                    self,
                ).spec_global()),
            final(self).spec_global() == if advanced {
                (old(self).spec_global() + 1) as u64
            } else {
                old(self).spec_global()
            },
            final(self).spec_locals() == old(self).spec_locals(),
            final(self).spec_bag() == old(self).spec_bag(),
    {
        if self.epoch == u64::MAX {
            return false;
        }
        let mut i: usize = 0;
        while i < self.locals.len()
            invariant
                0 <= i <= self.locals.len(),
                self.wf(),
                self.locals@ == old(self).locals@,
                self.bag@ == old(self).bag@,
                self.epoch == old(self).epoch,
                self.epoch < u64::MAX,
                forall|k: int|
                    0 <= k < i && (#[trigger] self.locals@[k]).pinned ==> self.locals@[k].epoch
                        == self.epoch,
            decreases self.locals.len() - i,
        {
            let l = self.locals[i];
            if l.pinned && l.epoch != self.epoch {
                assert(self.spec_locals()[i as int].pinned && self.spec_locals()[i as int].epoch
                    != self.spec_global());
                return false;
            }
            i = i + 1;
        }
        self.epoch = self.epoch + 1;
        true
    }

    /// Defers the destruction of `block` to a later epoch.
    pub fn defer(&mut self, block: usize)
        requires
            old(self).wf(),
        ensures
            final(self).wf(),
            final(self).spec_bag() == old(self).spec_bag().push(
                Deferred { block, epoch: old(self).spec_global() },
            ),
            final(self).spec_global() == old(self).spec_global(),
            final(self).spec_locals() == old(self).spec_locals(),
    {
        self.bag.push(Deferred { block, epoch: self.epoch });
    }

    /// Removes the expired items and returns them, oldest first; the others stay,
    /// in their order.
    pub fn take_expired(&mut self) -> (r: Vec<Deferred>)
        requires
            old(self).wf(),
        ensures
            final(self).wf(),
            r@ == old(self).spec_bag().filter(|d: Deferred| expired(d, old(self).spec_global())),
            final(self).spec_bag() == old(self).spec_bag().filter(
                |d: Deferred| !expired(d, old(self).spec_global()),
            ),
            final(self).spec_global() == old(self).spec_global(),
            final(self).spec_locals() == old(self).spec_locals(),
    {
        let ghost g = self.epoch;
        let ghost old_bag = self.bag@;
        let ghost f_run = |d: Deferred| expired(d, g);
        let ghost f_keep = |d: Deferred| !expired(d, g);
        let mut run: Vec<Deferred> = Vec::new();
        let mut keep: Vec<Deferred> = Vec::new();
        let mut i: usize = 0;
        while i < self.bag.len()
            invariant
                0 <= i <= self.bag.len(),
                self.bag@ == old_bag,
                self.epoch == g,
                self.wf(),
                self.locals@ == old(self).locals@,
                f_run == (|d: Deferred| expired(d, g)),
                f_keep == (|d: Deferred| !expired(d, g)),
                forall|j: int| 0 <= j < keep@.len() ==> (#[trigger] keep@[j]).epoch <= g,
                run@ == old_bag.take(i as int).filter(f_run),
                keep@ == old_bag.take(i as int).filter(f_keep),
            decreases self.bag.len() - i,
        {
            let d = self.bag[i];
            proof {
                reveal(Seq::filter);
                assert(old_bag.take(i as int + 1).drop_last() == old_bag.take(i as int));
                assert(old_bag.take(i as int + 1).last() == d);
                assert(old_bag.take(i as int + 1).filter(f_run) == if f_run(d) {
                    old_bag.take(i as int).filter(f_run).push(d)
                } else {
                    old_bag.take(i as int).filter(f_run)
                });
                assert(old_bag.take(i as int + 1).filter(f_keep) == if f_keep(d) {
                    old_bag.take(i as int).filter(f_keep).push(d)
                } else {
                    old_bag.take(i as int).filter(f_keep)
                });
            }
            if d.epoch <= u64::MAX - 2 && d.epoch + 2 <= self.epoch {
                run.push(d);
            } else {
                keep.push(d);
            }
            i = i + 1;
        }
        proof {
            assert(old_bag.take(old_bag.len() as int) == old_bag);
        }
        self.bag = keep;
        run
    }
}

/// An item that has expired cannot be observed by any pinned participant: every
/// participant pinned now holds an epoch later than the item's.
pub proof fn lemma_expired_unobserved(c: &Collector, d: Deferred)
    requires
        c.wf(),
        expired(d, c.spec_global()),
    ensures
        forall|i: int|
            0 <= i < c.spec_locals().len() && (#[trigger] c.spec_locals()[i]).pinned ==> d.epoch
                < c.spec_locals()[i].epoch,
{
    assert forall|i: int|
        0 <= i < c.spec_locals().len() && (#[trigger] c.spec_locals()[i]).pinned implies d.epoch
            < c.spec_locals()[i].epoch by {
        assert(c.locals@[i].pinned);
    }
}


/// A pointer reserved under an epoch guard.
pub struct AcquiredEBR<T>(Raw<T>);

impl<T> View for AcquiredEBR<T> {
    type V = u64;

    closed spec fn view(&self) -> u64 {
        self.0@
    }
}

impl<T> AcquiredEBR<T> {
    /// Reserves `ptr`.
    pub fn new(ptr: Raw<T>) -> (r: Self)
        ensures
            r@ == ptr@,
    {
        AcquiredEBR(ptr)
    }

    /// Returns the pointer reserved.
    pub fn as_ptr(&self) -> (r: Raw<T>)
        ensures
            r@ == self@,
    {
        self.0
    }

    /// A reservation of null.
    pub fn null() -> (r: Self)
        ensures
            r@ == 0,
    {
        AcquiredEBR(Tagged::null())
    }

    /// Returns `true` if the pointer is null, whatever the tags.
    pub fn is_null(&self) -> (r: bool)
        ensures
            r == (crate::tagged::raw_of::<RcInner<T>>(self@) == 0),
    {
        self.0.is_null()
    }

    /// Exchanges two reservations.
    pub fn swap(first: &mut Self, second: &mut Self)
        ensures
            final(first)@ == old(second)@,
            final(second)@ == old(first)@,
    {
        let t = first.0;
        first.0 = second.0;
        second.0 = t;
    }

    /// Returns `true` if both reserve the same word, stamps included.
    pub fn eq(&self, other: &Self) -> (r: bool)
        ensures
            r == (self@ == other@),
    {
        self.0 == other.0
    }

    /// Reserves null instead.
    pub fn clear(&mut self)
        ensures
            final(self)@ == 0,
    {
        self.0 = Tagged::null();
    }

    /// Replaces the user tag of the pointer reserved.
    pub fn set_tag(&mut self, tag: u64)
        ensures
            final(self)@ == with_tag_of::<RcInner<T>>(old(self)@, tag),
    {
        self.0 = self.0.with_tag(tag);
    }
}

#[verifier::external_type_specification]
#[verifier::external_body]
pub struct ExCrossbeamGuard(crossbeam::epoch::Guard);

/// Relies on `crossbeam::epoch::pin`: pins the current thread in crossbeam's
/// default collector and returns its guard.
#[verifier::external_body]
fn pin_thread() -> crossbeam::epoch::Guard {
    crossbeam::epoch::pin()
}

/// Relies on `crossbeam::epoch::Guard::repin`: lets the thread's epoch move on
/// while it keeps the same guard.
#[verifier::external_body]
fn repin_thread(guard: &mut crossbeam::epoch::Guard) {
    guard.repin()
}

/// A critical section of the current thread in crossbeam's epoch collector, or an
/// unprotected one.
pub struct CsEBR {
    guard: Option<crossbeam::epoch::Guard>,
}

impl CsEBR {
    /// Whether this critical section pins the thread.
    pub closed spec fn spec_protected(&self) -> bool {
        self.guard is Some
    }

    /// Pins the current thread.
    pub fn new() -> (r: Self)
        ensures
            r.spec_protected(),
    {
        CsEBR { guard: Some(pin_thread()) }
    }

    /// A critical section for the guard `guard`.
    pub fn from_guard(guard: crossbeam::epoch::Guard) -> (r: Self)
        ensures
            r.spec_protected(),
    {
        CsEBR { guard: Some(guard) }
    }

    /// A critical section that pins nothing.
    pub fn unprotected() -> (r: Self)
        ensures
            !r.spec_protected(),
    {
        CsEBR { guard: None }
    }

    /// Returns `true` when this critical section pins the thread.
    pub fn is_protected(&self) -> (r: bool)
        ensures
            r == self.spec_protected(),
    {
        self.guard.is_some()
    }

    /// Lets the thread's epoch move on, when it is pinned.
    pub fn clear(&mut self)
        ensures
            final(self).spec_protected() == old(self).spec_protected(),
    {
        match self.guard.take() {
            Some(g) => {
                let mut g = g;
                repin_thread(&mut g);
                self.guard = Some(g);
            },
            None => {},
        }
    }
}

} // verus!
