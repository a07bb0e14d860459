//! The handles: the atomic slot [`AtomicRc`], the owning [`Rc`], the borrowed
//! [`Snapshot`], and the edge taker that a dying object hands its edges to.
use core::marker::PhantomData;
use core::sync::atomic::Ordering;
use vstd::prelude::*;

use crate::domain::{
    address_of, block_of, counts_kept, decrement_post, increment_post, weak_add_post, weak_release_post, Domain,
    Raw, MAX_BLOCKS,
};
use crate::ebr::EpochGuard;
use crate::inner::RcInner;
use crate::tagged::{raw_of, tag_of, visible_of, with_high_tag_of, with_tag_of, Tagged};

verus! {

/// Word `w` as it is stored into a slot at epoch `e`: stamped with `e`, unless
/// it is null.
pub open spec fn stamped<T>(w: u64, e: u64) -> u64 {
    if raw_of::<RcInner<T>>(w) == 0 {
        w
    } else {
        with_high_tag_of(w, e)
    }
}

impl<T> Tagged<RcInner<T>> {
    /// The same pointer stamped with epoch `epoch`; a null pointer is left as is.
    pub fn with_timestamp(self, epoch: u64) -> (r: Self)
        ensures
            r@ == stamped::<T>(self@, epoch),
    {
        if self.is_null() {
            self
        } else {
            self.with_high_tag(epoch)
        }
    }
}

/// An object type whose outgoing edges can be taken when it dies, so that the
/// chain of objects that it alone kept alive is destroyed without recursion.
///
/// `pop_edges` should take the [`AtomicRc`]s and [`Rc`]s of the given object only:
/// a handle taken from elsewhere loses its count.
pub trait RcObject: Sized {
    /// Takes every outgoing edge of the object by calling `out.take`.
    fn pop_edges(&mut self, out: &mut EdgeTaker<Self>);
}

/// Collects the edges of a dying object.
pub struct EdgeTaker<T> {
    popped: Vec<Raw<T>>,
}

impl<T> EdgeTaker<T> {
    /// The edges taken so far, in order.
    pub closed spec fn spec_popped(&self) -> Seq<Raw<T>> {
        self.popped@
    }

    /// An empty taker.
    pub(crate) fn new() -> (r: Self)
        ensures
            r.spec_popped() == Seq::<Raw<T>>::empty(),
    {
        EdgeTaker { popped: Vec::new() }
    }

    /// Takes the handle out of `outgoing`, leaving null there, and keeps it.
    pub fn take<P: OwnRc<T>>(&mut self, outgoing: &mut P)
        ensures
            final(self).spec_popped().len() == old(self).spec_popped().len() + 1,
            final(self).spec_popped().drop_last() == old(self).spec_popped(),
            final(self).spec_popped().last()@ == old(outgoing)@,
            final(outgoing)@ == 0,
    {
        let rc = outgoing.take();
        self.popped.push(rc.into_raw());
        proof {
            assert(self.popped@.drop_last() =~= old(self).popped@);
        }
    }

    /// The edges taken, in order.
    pub(crate) fn into_edges(self) -> (r: Vec<Raw<T>>)
        ensures
            r@ == self.spec_popped(),
    {
        self.popped
    }
}

/// A type that owns a strong count.
pub trait OwnRc<T>: View<V = u64> {
    /// Takes the underlying [`Rc`], leaving a null pointer; the unit passes to the
    /// result.
    fn take(&mut self) -> (r: Rc<T>)
        ensures
            r@ == old(self)@,
            final(self)@ == 0,
    ;
}

/// An owning strong handle to a counted block.
///
/// The handle owns one unit of the block's strong count; [`Rc::finalize`] gives
/// it back. A handle that is merely dropped keeps its unit for ever.
pub struct Rc<T> {
    ptr: Raw<T>,
}

impl<T> View for Rc<T> {
    type V = u64;

    closed spec fn view(&self) -> u64 {
        self.ptr@
    }
}

impl<T> Rc<T> {
    /// The handle for the word `ptr`, which owns a unit of its block's count.
    pub(crate) fn from_raw(ptr: Raw<T>) -> (r: Self)
        ensures
            r@ == ptr@,
    {
        Rc { ptr }
    }

    /// The word of this handle; its unit of count passes to the caller.
    pub(crate) fn into_raw(self) -> (r: Raw<T>)
        ensures
            r@ == self@,
    {
        self.ptr
    }

    /// A null handle, which owns nothing.
    pub fn null() -> (r: Self)
        ensures
            r@ == 0,
    {
        Rc::from_raw(Tagged::null())
    }

    /// Returns `true` if the pointer is null, whatever the tags.
    pub fn is_null(&self) -> (r: bool)
        ensures
            r == (raw_of::<RcInner<T>>(self@) == 0),
    {
        self.ptr.is_null()
    }

    /// Returns the user tag.
    pub fn tag(&self) -> (r: u64)
        ensures
            r == tag_of::<RcInner<T>>(self@),
    {
        self.ptr.tag()
    }

    /// The same handle with the user tag `tag`, truncated to the tag bits.
    pub fn with_tag(self, tag: u64) -> (r: Self)
        ensures
            r@ == with_tag_of::<RcInner<T>>(self@, tag),
    {
        Rc::from_raw(self.ptr.with_tag(tag))
    }

    /// Returns `true` if both handles have the same address and user tag; epoch
    /// stamps are not compared.
    pub fn ptr_eq(&self, other: &Self) -> (r: bool)
        ensures
            r == (visible_of(self@) == visible_of(other@)),
    {
        self.ptr.ptr_eq(other.ptr)
    }

    /// A snapshot of the same pointer, valid while `guard` lives.
    pub fn snapshot<'g>(&self, guard: &'g EpochGuard) -> (r: Snapshot<'g, T>)
        ensures
            r@ == self@,
    {
        Snapshot::from_raw(self.ptr, guard)
    }
}

impl<T: RcObject> Rc<T> {
    /// Allocates a block holding `obj` with one strong handle, and returns it.
    pub fn new(obj: T, domain: &mut Domain<T>) -> (r: Self)
        requires
            old(domain).wf(),
            old(domain).spec_blocks().len() < MAX_BLOCKS,
        ensures
            final(domain).wf(),
            r@ == address_of(old(domain).spec_blocks().len() as int),
            final(domain).holds(r@),
            block_of(r@) == old(domain).spec_blocks().len(),
            final(domain).spec_blocks().drop_last() == old(domain).spec_blocks(),
            final(domain).spec_blocks().len() == old(domain).spec_blocks().len() + 1,
            final(domain).spec_blocks().last().spec_data() == Some(obj),
            final(domain).spec_blocks().last().spec_strong() == 1,
            final(domain).spec_blocks().last().spec_weak() == 1,
            final(domain).spec_collector() == old(domain).spec_collector(),
    {
        Rc::from_raw(domain.allocate(obj, 1))
    }

    /// Allocates a block holding `obj` with `N` strong handles, and returns them.
    pub fn new_many<const N: usize>(obj: T, domain: &mut Domain<T>) -> (r: Vec<Self>)
        requires
            old(domain).wf(),
            old(domain).spec_blocks().len() < MAX_BLOCKS,
            N <= u32::MAX,
        ensures
            final(domain).wf(),
            r@.len() == N,
            forall|k: int|
                0 <= k < N ==> (#[trigger] r@[k])@ == address_of(
                    old(domain).spec_blocks().len() as int,
                ),
            final(domain).spec_blocks().drop_last() == old(domain).spec_blocks(),
            final(domain).spec_blocks().len() == old(domain).spec_blocks().len() + 1,
            final(domain).spec_blocks().last().spec_data() == Some(obj),
            final(domain).spec_blocks().last().spec_strong() == N,
            final(domain).spec_blocks().last().spec_weak() == 1,
            final(domain).spec_collector() == old(domain).spec_collector(),
    {
        let ptr = domain.allocate(obj, N as u32);
        let mut out: Vec<Self> = Vec::new();
        let mut k: usize = 0;
        while k < N
            invariant
                k <= N,
                out@.len() == k,
                forall|j: int| 0 <= j < k ==> (#[trigger] out@[j])@ == ptr@,
            decreases N - k,
        {
            out.push(Rc::from_raw(ptr));
            k = k + 1;
        }
        out
    }

    /// Allocates a block holding `obj` with `count` strong handles, and returns an
    /// iterator that hands them out.
    pub fn new_many_iter(obj: T, count: usize, domain: &mut Domain<T>) -> (r: NewRcIter<T>)
        requires
            old(domain).wf(),
            old(domain).spec_blocks().len() < MAX_BLOCKS,
            count <= u32::MAX,
        ensures
            final(domain).wf(),
            r.spec_remain() == count,
            r.spec_ptr() == address_of(old(domain).spec_blocks().len() as int),
            final(domain).spec_blocks().drop_last() == old(domain).spec_blocks(),
            final(domain).spec_blocks().len() == old(domain).spec_blocks().len() + 1,
            final(domain).spec_blocks().last().spec_data() == Some(obj),
            final(domain).spec_blocks().last().spec_strong() == count,
            final(domain).spec_blocks().last().spec_weak() == 1,
            final(domain).spec_collector() == old(domain).spec_collector(),
    {
        let ptr = domain.allocate(obj, count as u32);
        NewRcIter { remain: count, ptr }
    }

    /// A second handle to the same block: the strong count grows by one (by two
    /// when it had reached zero; see [`Domain::increment_strong`]).
    pub fn clone(&self, domain: &mut Domain<T>) -> (r: Self)
        requires
            old(domain).wf(),
            old(domain).holds(self@) ==> old(domain).block(self@).spec_strong() + 2 <= u32::MAX,
        ensures
            r@ == self@,
            increment_post(*old(domain), *final(domain), self@),
    {
        domain.increment_strong(self.ptr);
        Rc::from_raw(self.ptr)
    }

    /// Gives back the strong unit of this handle, deferring the destruction under
    /// `guard` when it was the last (see [`Domain::decrement_strong`]).
    pub fn finalize(self, domain: &mut Domain<T>, guard: &EpochGuard)
        requires
            old(domain).wf(),
        ensures
            decrement_post(*old(domain), *final(domain), self@, 1, *guard),
    {
        domain.decrement_strong(self.ptr, 1, guard);
    }

    /// A weak handle to the same block: the weak count grows by one while the
    /// object is there; otherwise the weak handle is null.
    pub fn downgrade(&self, domain: &mut Domain<T>) -> (r: Weak<T>)
        requires
            old(domain).wf(),
            old(domain).holds(self@) ==> old(domain).block(self@).spec_weak() + 1 <= u32::MAX,
        ensures
            weak_add_post(*old(domain), *final(domain), self@, r@),
    {
        if domain.is_live_at(self.ptr) {
            domain.increment_weak(self.ptr, 1);
            Weak { ptr: self.ptr }
        } else {
            Weak::null()
        }
    }

    /// `N` weak handles to the same block: the weak count grows by `N` while the
    /// object is there; otherwise the handles are null.
    pub fn weak_many<const N: usize>(&self, domain: &mut Domain<T>) -> (r: Vec<Weak<T>>)
        requires
            old(domain).wf(),
            N <= u32::MAX,
            old(domain).holds(self@) ==> old(domain).block(self@).spec_weak() + N <= u32::MAX,
        ensures
            final(domain).wf(),
            final(domain).spec_collector() == old(domain).spec_collector(),
            r@.len() == N,
            if old(domain).holds(self@) && old(domain).block(self@).spec_data() is Some {
                &&& forall|k: int| 0 <= k < N ==> (#[trigger] r@[k])@ == self@
                &&& crate::domain::weak_set(
                    old(domain).spec_blocks(),
                    final(domain).spec_blocks(),
                    block_of(self@),
                    (old(domain).block(self@).spec_weak() + N) as nat,
                )
            } else {
                &&& forall|k: int| 0 <= k < N ==> (#[trigger] r@[k])@ == 0
                &&& final(domain).spec_blocks() == old(domain).spec_blocks()
            },
    {
        let live = domain.is_live_at(self.ptr);
        let w = if live {
            domain.increment_weak(self.ptr, N as u32);
            self.ptr
        } else {
            Tagged::null()
        };
        let mut out: Vec<Weak<T>> = Vec::new();
        let mut k: usize = 0;
        while k < N
            invariant
                k <= N,
                out@.len() == k,
                forall|j: int| 0 <= j < k ==> (#[trigger] out@[j])@ == w@,
            decreases N - k,
        {
            out.push(Weak { ptr: w });
            k = k + 1;
        }
        out
    }

    /// Returns the object, unless the handle is null or the object is gone.
    pub fn as_ref<'a>(&self, domain: &'a Domain<T>) -> (r: Option<&'a T>)
        requires
            domain.wf(),
        ensures
            r == if domain.holds(self@) {
                match domain.block(self@).spec_data() {
                    Some(x) => Some(&x),
                    None => None::<&T>,
                }
            } else {
                None::<&T>
            },
    {
        domain.get(self.ptr)
    }

    /// Returns the object; the handle must point to an object of `domain` that is
    /// still there.
    pub fn deref<'a>(&self, domain: &'a Domain<T>) -> (r: &'a T)
        requires
            domain.wf(),
            domain.holds(self@),
            domain.block(self@).spec_data() is Some,
        ensures
            domain.block(self@).spec_data() == Some(*r),
    {
        domain.get(self.ptr).unwrap()
    }

    /// Returns the object for mutation; the handle must point to an object of
    /// `domain` that is still there. No count changes.
    pub fn deref_mut<'a>(&self, domain: &'a mut Domain<T>) -> (r: &'a mut T)
        requires
            old(domain).wf(),
            old(domain).holds(self@),
            old(domain).block(self@).spec_data() is Some,
        ensures
            old(domain).block(self@).spec_data() == Some(*r),
            counts_kept(*old(domain), *final(domain)),
            final(domain).wf(),
    {
        domain.get_mut(self.ptr).unwrap()
    }

    /// Returns the object for mutation, unless the handle is null or the object is
    /// gone. No count changes.
    pub fn as_mut<'a>(&self, domain: &'a mut Domain<T>) -> (r: Option<&'a mut T>)
        requires
            old(domain).wf(),
        ensures
            r is Some == (old(domain).holds(self@) && old(domain).block(self@).spec_data() is Some),
            r is Some ==> old(domain).block(self@).spec_data() == Some(*r->Some_0),
            counts_kept(*old(domain), *final(domain)),
            final(domain).wf(),
    {
        domain.get_mut(self.ptr)
    }
}

impl<T> OwnRc<T> for Rc<T> {
    fn take(&mut self) -> (r: Rc<T>) {
        let ptr = self.ptr;
        self.ptr = Tagged::null();
        Rc::from_raw(ptr)
    }
}

/// An iterator that hands out the strong handles of a block allocated with
/// several at once.
pub struct NewRcIter<T> {
    remain: usize,
    ptr: Raw<T>,
}

impl<T> NewRcIter<T> {
    /// Number of handles not handed out yet.
    pub closed spec fn spec_remain(&self) -> usize {
        self.remain
    }

    /// The word of the handles.
    pub closed spec fn spec_ptr(&self) -> u64 {
        self.ptr@
    }

    /// Hands out the next handle, if any is left.
    pub fn next(&mut self) -> (r: Option<Rc<T>>)
        ensures
            final(self).spec_ptr() == old(self).spec_ptr(),
            if old(self).spec_remain() == 0 {
                &&& r is None
                &&& final(self).spec_remain() == 0
            } else {
                &&& r is Some
                &&& r->Some_0@ == old(self).spec_ptr()
                &&& final(self).spec_remain() == old(self).spec_remain() - 1
            },
    {
        if self.remain == 0 {
            None
        } else {
            self.remain = self.remain - 1;
            Some(Rc::from_raw(self.ptr))
        }
    }
}

impl<T: RcObject> NewRcIter<T> {
    /// Stops handing out handles, and gives back the units of those not handed out
    /// in one step.
    pub fn abort(self, domain: &mut Domain<T>, guard: &EpochGuard)
        requires
            old(domain).wf(),
        ensures
            self.spec_remain() <= u32::MAX ==> decrement_post(
                *old(domain),
                *final(domain),
                self.spec_ptr(),
                self.spec_remain() as u32,
                *guard,
            ),
    {
        if self.remain <= u32::MAX as usize {
            domain.decrement_strong(self.ptr, self.remain as u32, guard);
        }
    }
}


/// Result of a failed compare-and-exchange: the desired value goes back to the
/// caller, with the value found in the slot.
pub struct CompareExchangeError<P, S> {
    /// The desired value that was passed in.
    pub desired: P,
    /// The value found in the slot.
    pub current: S,
}

/// A slot holding an [`Rc`]: it owns one strong unit of the block it points to.
///
/// Each pointer stored is stamped with the global epoch of the store. Slot
/// operations take `&mut self`: each is one atomic step, so the memory orderings
/// that they accept order nothing more.
pub struct AtomicRc<T> {
    link: Raw<T>,
}

impl<T> View for AtomicRc<T> {
    type V = u64;

    closed spec fn view(&self) -> u64 {
        self.link@
    }
}

/// An ordering that a load accepts: not `Release` nor `AcqRel`.
pub open spec fn load_ordering(order: Ordering) -> bool {
    order != Ordering::Release && order != Ordering::AcqRel
}

impl<T> AtomicRc<T> {
    /// A slot holding null.
    pub fn null() -> (r: Self)
        ensures
            r@ == 0,
    {
        AtomicRc { link: Tagged::null() }
    }

    /// A slot holding the handle `rc`, whose unit it takes over; the pointer is
    /// stored as it is, without a stamp.
    pub fn from_rc(rc: Rc<T>) -> (r: Self)
        ensures
            r@ == rc@,
    {
        AtomicRc { link: rc.into_raw() }
    }

    /// A snapshot of the pointer held, valid while `guard` lives.
    pub fn load<'g>(&self, order: Ordering, guard: &'g EpochGuard) -> (r: Snapshot<'g, T>)
        requires
            load_ordering(order),
        ensures
            r@ == self@,
    {
        Snapshot::from_raw(self.link, guard)
    }

    /// Stores `new`, stamped with `global` (the domain's global epoch, which a
    /// slot inside an object of the domain cannot read itself), and returns the
    /// handle that was held: its unit passes to the caller.
    pub fn swap(&mut self, new: Rc<T>, order: Ordering, global: u64) -> (r: Rc<T>)
        ensures
            r@ == old(self)@,
            final(self)@ == stamped::<T>(new@, global),
    {
        let old_ptr = self.link;
        self.link = new.into_raw().with_timestamp(global);
        Rc::from_raw(old_ptr)
    }

    /// Stores `desired`, stamped with `global`, when the slot holds the
    /// same address and user tag as `expected` (the stamps are not compared), and
    /// returns the handle that was held. Otherwise returns `desired` with a
    /// snapshot of what the slot holds, and leaves the slot as it is.
    pub fn compare_exchange<'g>(
        &mut self,
        expected: Snapshot<'g, T>,
        desired: Rc<T>,
        success: Ordering,
        failure: Ordering,
        global: u64,
        guard: &'g EpochGuard,
    ) -> (r: Result<Rc<T>, CompareExchangeError<Rc<T>, Snapshot<'g, T>>>)
        ensures
            visible_of(old(self)@) == visible_of(expected@) ==> {
                &&& r is Ok
                &&& r->Ok_0@ == old(self)@
                &&& final(self)@ == stamped::<T>(desired@, global)
            },
            visible_of(old(self)@) != visible_of(expected@) ==> {
                &&& r is Err
                &&& r->Err_0.desired@ == desired@
                &&& r->Err_0.current@ == old(self)@
                &&& final(self)@ == old(self)@
            },
    {
        let current = self.link;
        if current.ptr_eq(expected.ptr) {
            self.link = desired.into_raw().with_timestamp(global);
            Ok(Rc::from_raw(current))
        } else {
            Err(CompareExchangeError { desired, current: Snapshot::from_raw(current, guard) })
        }
    }

    /// Like [`AtomicRc::compare_exchange`]; a step that may fail spuriously on
    /// hardware, which this slot never does.
    pub fn compare_exchange_weak<'g>(
        &mut self,
        expected: Snapshot<'g, T>,
        desired: Rc<T>,
        success: Ordering,
        failure: Ordering,
        global: u64,
        guard: &'g EpochGuard,
    ) -> (r: Result<Rc<T>, CompareExchangeError<Rc<T>, Snapshot<'g, T>>>)
        ensures
            visible_of(old(self)@) == visible_of(expected@) ==> {
                &&& r is Ok
                &&& r->Ok_0@ == old(self)@
                &&& final(self)@ == stamped::<T>(desired@, global)
            },
            visible_of(old(self)@) != visible_of(expected@) ==> {
                &&& r is Err
                &&& r->Err_0.desired@ == desired@
                &&& r->Err_0.current@ == old(self)@
                &&& final(self)@ == old(self)@
            },
    {
        self.compare_exchange(expected, desired, success, failure, global, guard)
    }

    /// Replaces the user tag of the pointer held by `desired_tag`, truncated to the
    /// tag bits, when the slot holds the same address and user tag as `expected`;
    /// the new value is stamped with `global`. The object held does not
    /// change. Returns a snapshot of what the slot held, or, on failure, the value
    /// that would have been stored with a snapshot of what the slot holds.
    pub fn compare_exchange_tag<'g>(
        &mut self,
        expected: Snapshot<'g, T>,
        desired_tag: u64,
        success: Ordering,
        failure: Ordering,
        global: u64,
        guard: &'g EpochGuard,
    ) -> (r: Result<Snapshot<'g, T>, CompareExchangeError<Snapshot<'g, T>, Snapshot<'g, T>>>)
        ensures
            ({
                let desired = stamped::<T>(
                    with_tag_of::<RcInner<T>>(expected@, desired_tag),
                    global,
                );
                &&& visible_of(old(self)@) == visible_of(expected@) ==> {
                    &&& r is Ok
                    &&& r->Ok_0@ == old(self)@
                    &&& final(self)@ == desired
                }
                &&& visible_of(old(self)@) != visible_of(expected@) ==> {
                    &&& r is Err
                    &&& r->Err_0.desired@ == desired
                    &&& r->Err_0.current@ == old(self)@
                    &&& final(self)@ == old(self)@
                }
            }),
    {
        let desired = expected.ptr.with_tag(desired_tag).with_timestamp(global);
        let current = self.link;
        if current.ptr_eq(expected.ptr) {
            self.link = desired;
            Ok(Snapshot::from_raw(current, guard))
        } else {
            Err(
                CompareExchangeError {
                    desired: Snapshot::from_raw(desired, guard),
                    current: Snapshot::from_raw(current, guard),
                },
            )
        }
    }
}

impl<T: RcObject> AtomicRc<T> {
    /// A slot holding a new block with `obj` and one strong handle.
    pub fn new(obj: T, domain: &mut Domain<T>) -> (r: Self)
        requires
            old(domain).wf(),
            old(domain).spec_blocks().len() < MAX_BLOCKS,
        ensures
            final(domain).wf(),
            r@ == address_of(old(domain).spec_blocks().len() as int),
            final(domain).holds(r@),
            block_of(r@) == old(domain).spec_blocks().len(),
            final(domain).spec_blocks().drop_last() == old(domain).spec_blocks(),
            final(domain).spec_blocks().len() == old(domain).spec_blocks().len() + 1,
            final(domain).spec_blocks().last().spec_data() == Some(obj),
            final(domain).spec_blocks().last().spec_strong() == 1,
            final(domain).spec_blocks().last().spec_weak() == 1,
            final(domain).spec_collector() == old(domain).spec_collector(),
    {
        AtomicRc::from_rc(Rc::new(obj, domain))
    }

    /// Stores `ptr`, stamped with the global epoch, and gives back the unit of the
    /// handle that was held, deferring under `guard`.
    pub fn store(&mut self, ptr: Rc<T>, order: Ordering, domain: &mut Domain<T>, guard: &EpochGuard)
        requires
            old(domain).wf(),
        ensures
            final(self)@ == stamped::<T>(ptr@, old(domain).spec_collector().spec_global()),
            decrement_post(*old(domain), *final(domain), old(self)@, 1, *guard),
    {
        let global = domain.global_epoch();
        let old_rc = self.swap(ptr, order, global);
        old_rc.finalize(domain, guard);
    }

    /// Gives back the unit of the handle held, deferring under `guard`.
    pub fn finalize(self, domain: &mut Domain<T>, guard: &EpochGuard)
        requires
            old(domain).wf(),
        ensures
            decrement_post(*old(domain), *final(domain), self@, 1, *guard),
    {
        Rc::from_raw(self.link).finalize(domain, guard);
    }
}

impl<T> OwnRc<T> for AtomicRc<T> {
    fn take(&mut self) -> (r: Rc<T>) {
        let ptr = self.link;
        self.link = Tagged::null();
        Rc::from_raw(ptr)
    }
}

/// A pointer read under a guard: it owns no count, and is valid while the guard
/// `'g` lives.
pub struct Snapshot<'g, T> {
    ptr: Raw<T>,
    _marker: PhantomData<&'g T>,
}

impl<'g, T> View for Snapshot<'g, T> {
    type V = u64;

    closed spec fn view(&self) -> u64 {
        self.ptr@
    }
}

impl<'g, T> Clone for Snapshot<'g, T> {
    fn clone(&self) -> (r: Self)
        ensures
            r@ == self@,
    {
        Snapshot { ptr: self.ptr, _marker: PhantomData }
    }
}

impl<'g, T> Copy for Snapshot<'g, T> {
}

impl<'g, T> Snapshot<'g, T> {
    /// A null snapshot.
    pub fn null() -> (r: Self)
        ensures
            r@ == 0,
    {
        Snapshot { ptr: Tagged::null(), _marker: PhantomData }
    }

    /// The snapshot of word `acquired`, read under `guard`.
    pub(crate) fn from_raw(acquired: Raw<T>, guard: &'g EpochGuard) -> (r: Self)
        ensures
            r@ == acquired@,
    {
        Snapshot { ptr: acquired, _marker: PhantomData }
    }

    /// Returns `true` if the pointer is null, whatever the tags.
    pub fn is_null(&self) -> (r: bool)
        ensures
            r == (raw_of::<RcInner<T>>(self@) == 0),
    {
        self.ptr.is_null()
    }

    /// Returns the user tag.
    pub fn tag(self) -> (r: u64)
        ensures
            r == tag_of::<RcInner<T>>(self@),
    {
        self.ptr.tag()
    }

    /// The same snapshot with the user tag `tag`, truncated to the tag bits.
    pub fn with_tag(self, tag: u64) -> (r: Self)
        ensures
            r@ == with_tag_of::<RcInner<T>>(self@, tag),
    {
        Snapshot { ptr: self.ptr.with_tag(tag), _marker: PhantomData }
    }

    /// Returns `true` if both snapshots have the same address and user tag; epoch
    /// stamps are not compared.
    pub fn ptr_eq(self, other: Self) -> (r: bool)
        ensures
            r == (visible_of(self@) == visible_of(other@)),
    {
        self.ptr.ptr_eq(other.ptr)
    }

    /// The weak snapshot of the same pointer; no count changes.
    pub fn downgrade(self) -> (r: WeakSnapshot<'g, T>)
        ensures
            r@ == self@,
    {
        WeakSnapshot { ptr: self.ptr, _marker: PhantomData }
    }
}

impl<'g, T: RcObject> Snapshot<'g, T> {
    /// A strong handle to the same block: the strong count grows by one, or by two
    /// when it had reached zero (see [`Domain::increment_strong`]).
    pub fn counted(self, domain: &mut Domain<T>) -> (r: Rc<T>)
        requires
            old(domain).wf(),
            old(domain).holds(self@) ==> old(domain).block(self@).spec_strong() + 2 <= u32::MAX,
        ensures
            r@ == self@,
            increment_post(*old(domain), *final(domain), self@),
    {
        domain.increment_strong(self.ptr);
        Rc::from_raw(self.ptr)
    }

    /// Returns the object, unless the pointer is null or the object is gone.
    pub fn as_ref<'a>(self, domain: &'a Domain<T>) -> (r: Option<&'a T>)
        requires
            domain.wf(),
        ensures
            r == if domain.holds(self@) {
                match domain.block(self@).spec_data() {
                    Some(x) => Some(&x),
                    None => None::<&T>,
                }
            } else {
                None::<&T>
            },
    {
        domain.get(self.ptr)
    }

    /// Returns the object; the snapshot must point to an object of `domain` that is
    /// still there.
    pub fn deref<'a>(self, domain: &'a Domain<T>) -> (r: &'a T)
        requires
            domain.wf(),
            domain.holds(self@),
            domain.block(self@).spec_data() is Some,
        ensures
            domain.block(self@).spec_data() == Some(*r),
    {
        domain.get(self.ptr).unwrap()
    }

    /// Returns the object for mutation; the snapshot must point to an object of
    /// `domain` that is still there. No count changes.
    pub fn deref_mut<'a>(self, domain: &'a mut Domain<T>) -> (r: &'a mut T)
        requires
            old(domain).wf(),
            old(domain).holds(self@),
            old(domain).block(self@).spec_data() is Some,
        ensures
            old(domain).block(self@).spec_data() == Some(*r),
            counts_kept(*old(domain), *final(domain)),
            final(domain).wf(),
    {
        domain.get_mut(self.ptr).unwrap()
    }

    /// Returns the object for mutation, unless the snapshot is null or the object is
    /// gone. No count changes.
    pub fn as_mut<'a>(self, domain: &'a mut Domain<T>) -> (r: Option<&'a mut T>)
        requires
            old(domain).wf(),
        ensures
            r is Some == (old(domain).holds(self@) && old(domain).block(self@).spec_data() is Some),
            r is Some ==> old(domain).block(self@).spec_data() == Some(*r->Some_0),
            counts_kept(*old(domain), *final(domain)),
            final(domain).wf(),
    {
        domain.get_mut(self.ptr)
    }
}

/// An owning weak handle: it owns one unit of its block's weak count, which
/// [`Weak::finalize`] gives back.
pub struct Weak<T> {
    ptr: Raw<T>,
}

impl<T> View for Weak<T> {
    type V = u64;

    closed spec fn view(&self) -> u64 {
        self.ptr@
    }
}

impl<T> Weak<T> {
    /// A null weak handle, which owns nothing.
    pub fn null() -> (r: Self)
        ensures
            r@ == 0,
    {
        Weak { ptr: Tagged::null() }
    }

    /// Returns `true` if the pointer is null, whatever the tags.
    pub fn is_null(&self) -> (r: bool)
        ensures
            r == (raw_of::<RcInner<T>>(self@) == 0),
    {
        self.ptr.is_null()
    }

    /// Returns the user tag.
    pub fn tag(&self) -> (r: u64)
        ensures
            r == tag_of::<RcInner<T>>(self@),
    {
        self.ptr.tag()
    }

    /// The same handle with the user tag `tag`, truncated to the tag bits.
    pub fn with_tag(self, tag: u64) -> (r: Self)
        ensures
            r@ == with_tag_of::<RcInner<T>>(self@, tag),
    {
        Weak { ptr: self.ptr.with_tag(tag) }
    }
}

impl<T: RcObject> Weak<T> {
    /// A second weak handle to the same block: the weak count grows by one while
    /// the object is there; otherwise the handle is null.
    pub fn clone(&self, domain: &mut Domain<T>) -> (r: Self)
        requires
            old(domain).wf(),
            old(domain).holds(self@) ==> old(domain).block(self@).spec_weak() + 1 <= u32::MAX,
        ensures
            weak_add_post(*old(domain), *final(domain), self@, r@),
    {
        if domain.is_live_at(self.ptr) {
            domain.increment_weak(self.ptr, 1);
            Weak { ptr: self.ptr }
        } else {
            Weak::null()
        }
    }

    /// A strong handle to the same block, while it still has a strong handle.
    pub fn upgrade(&self, domain: &mut Domain<T>) -> (r: Option<Rc<T>>)
        requires
            old(domain).wf(),
            old(domain).holds(self@) ==> old(domain).block(self@).spec_strong() + 2 <= u32::MAX,
        ensures
            final(domain).wf(),
            final(domain).spec_collector() == old(domain).spec_collector(),
            r is Some == (old(domain).holds(self@) && old(domain).block(self@).spec_strong() > 0),
            r is Some ==> r->Some_0@ == self@ && crate::domain::strong_set(
                old(domain).spec_blocks(),
                final(domain).spec_blocks(),
                block_of(self@),
                old(domain).block(self@).spec_strong() + 1,
                old(domain).block(self@).spec_destruct_epoch(),
            ),
            r is None ==> final(domain).spec_blocks() == old(domain).spec_blocks(),
    {
        if domain.try_increment_strong(self.ptr) {
            Some(Rc::from_raw(self.ptr))
        } else {
            None
        }
    }

    /// Gives back the weak unit of this handle (see [`Domain::decrement_weak`]).
    pub fn finalize(self, domain: &mut Domain<T>)
        requires
            old(domain).wf(),
        ensures
            final(domain).wf(),
            final(domain).spec_collector() == old(domain).spec_collector(),
            weak_release_post(*old(domain), *final(domain), self@),
    {
        domain.decrement_weak(self.ptr);
    }
}

/// A slot holding a [`Weak`]: it owns one weak unit of the block it points to.
/// Pointers stored are stamped with the global epoch of the store, as in
/// [`AtomicRc`].
pub struct AtomicWeak<T> {
    link: Raw<T>,
}

impl<T> View for AtomicWeak<T> {
    type V = u64;

    closed spec fn view(&self) -> u64 {
        self.link@
    }
}

impl<T> AtomicWeak<T> {
    /// A slot holding null.
    pub fn null() -> (r: Self)
        ensures
            r@ == 0,
    {
        AtomicWeak { link: Tagged::null() }
    }

    /// A slot holding the weak handle `weak`, whose unit it takes over.
    pub fn from_weak(weak: Weak<T>) -> (r: Self)
        ensures
            r@ == weak@,
    {
        AtomicWeak { link: weak.ptr }
    }

    /// A weak snapshot of the pointer held, valid while `guard` lives.
    pub fn load<'g>(&self, order: Ordering, guard: &'g EpochGuard) -> (r: WeakSnapshot<'g, T>)
        requires
            load_ordering(order),
        ensures
            r@ == self@,
    {
        WeakSnapshot { ptr: self.link, _marker: PhantomData }
    }

    /// Stores `new`, stamped with `global`, and returns the weak handle that was
    /// held: its unit passes to the caller.
    pub fn swap(&mut self, new: Weak<T>, order: Ordering, global: u64) -> (r: Weak<T>)
        ensures
            r@ == old(self)@,
            final(self)@ == stamped::<T>(new@, global),
    {
        let old_ptr = self.link;
        self.link = new.ptr.with_timestamp(global);
        Weak { ptr: old_ptr }
    }

    /// Takes the weak handle held, leaving null.
    pub fn take(&mut self) -> (r: Weak<T>)
        ensures
            r@ == old(self)@,
            final(self)@ == 0,
    {
        let ptr = self.link;
        self.link = Tagged::null();
        Weak { ptr }
    }
}

impl<T: RcObject> AtomicWeak<T> {
    /// Stores `ptr`, stamped with the global epoch, and gives back the weak unit of
    /// the handle that was held.
    pub fn store(&mut self, ptr: Weak<T>, order: Ordering, domain: &mut Domain<T>)
        requires
            old(domain).wf(),
        ensures
            final(domain).wf(),
            final(self)@ == stamped::<T>(ptr@, old(domain).spec_collector().spec_global()),
            final(domain).spec_collector() == old(domain).spec_collector(),
            weak_release_post(*old(domain), *final(domain), old(self)@),
    {
        let global = domain.global_epoch();
        let old_weak = self.swap(ptr, order, global);
        old_weak.finalize(domain);
    }

    /// Gives back the weak unit of the handle held.
    pub fn finalize(self, domain: &mut Domain<T>)
        requires
            old(domain).wf(),
        ensures
            final(domain).wf(),
            final(domain).spec_collector() == old(domain).spec_collector(),
            weak_release_post(*old(domain), *final(domain), self@),
    {
        Weak { ptr: self.link }.finalize(domain);
    }
}

impl<T> Pointer<T> for AtomicWeak<T> {
    fn as_ptr(&self) -> (r: Raw<T>) {
        self.link
    }
}

/// A weak pointer read under a guard: it owns no count, and is valid while the
/// guard `'g` lives.
pub struct WeakSnapshot<'g, T> {
    ptr: Raw<T>,
    _marker: PhantomData<&'g T>,
}

impl<'g, T> View for WeakSnapshot<'g, T> {
    type V = u64;

    closed spec fn view(&self) -> u64 {
        self.ptr@
    }
}

impl<'g, T> Clone for WeakSnapshot<'g, T> {
    fn clone(&self) -> (r: Self)
        ensures
            r@ == self@,
    {
        WeakSnapshot { ptr: self.ptr, _marker: PhantomData }
    }
}

impl<'g, T> Copy for WeakSnapshot<'g, T> {
}

impl<'g, T> WeakSnapshot<'g, T> {
    /// A null weak snapshot.
    pub fn null() -> (r: Self)
        ensures
            r@ == 0,
    {
        WeakSnapshot { ptr: Tagged::null(), _marker: PhantomData }
    }

    /// Returns the user tag.
    pub fn tag(self) -> (r: u64)
        ensures
            r == tag_of::<RcInner<T>>(self@),
    {
        self.ptr.tag()
    }

    /// The same weak snapshot with the user tag `tag`, truncated to the tag bits.
    pub fn with_tag(self, tag: u64) -> (r: Self)
        ensures
            r@ == with_tag_of::<RcInner<T>>(self@, tag),
    {
        WeakSnapshot { ptr: self.ptr.with_tag(tag), _marker: PhantomData }
    }
}

impl<'g, T: RcObject> WeakSnapshot<'g, T> {
    /// The snapshot of the same pointer while its block still has a strong handle.
    pub fn upgrade(self, domain: &Domain<T>) -> (r: Option<Snapshot<'g, T>>)
        requires
            domain.wf(),
        ensures
            r is Some == (domain.holds(self@) && domain.block(self@).spec_strong() > 0),
            r is Some ==> r->Some_0@ == self@,
    {
        if domain.strong_count(self.ptr) > 0 {
            Some(Snapshot { ptr: self.ptr, _marker: PhantomData })
        } else {
            None
        }
    }
}


impl<T> Default for Rc<T> {
    fn default() -> (r: Self)
        ensures
            r@ == 0,
    {
        Rc::null()
    }
}

impl<T> Default for AtomicRc<T> {
    fn default() -> (r: Self)
        ensures
            r@ == 0,
    {
        AtomicRc::null()
    }
}

impl<'g, T> Default for Snapshot<'g, T> {
    fn default() -> (r: Self)
        ensures
            r@ == 0,
    {
        Snapshot::null()
    }
}

/// A type that holds a pointer word to a counted block.
pub trait Pointer<T>: View<V = u64> {
    /// Returns the pointer word.
    fn as_ptr(&self) -> (r: Raw<T>)
        ensures
            r@ == self@,
    ;

    /// Returns `true` if the pointer is null, whatever the tags.
    fn is_null(&self) -> (r: bool)
        ensures
            r == (raw_of::<RcInner<T>>(self@) == 0),
    {
        self.as_ptr().is_null()
    }
}

impl<T> Pointer<T> for Rc<T> {
    fn as_ptr(&self) -> (r: Raw<T>) {
        self.ptr
    }
}

impl<T> Pointer<T> for AtomicRc<T> {
    fn as_ptr(&self) -> (r: Raw<T>) {
        self.link
    }
}

impl<'g, T> Pointer<T> for Snapshot<'g, T> {
    fn as_ptr(&self) -> (r: Raw<T>) {
        self.ptr
    }
}

impl<T> Pointer<T> for Weak<T> {
    fn as_ptr(&self) -> (r: Raw<T>) {
        self.ptr
    }
}

/// Comparing with `ptr_eq` is an equivalence: reflexive, symmetric and
/// transitive over pointer words.
pub proof fn lemma_ptr_eq_equivalence(a: u64, b: u64, c: u64)
    ensures
        visible_of(a) == visible_of(a),
        visible_of(a) == visible_of(b) ==> visible_of(b) == visible_of(a),
        visible_of(a) == visible_of(b) && visible_of(b) == visible_of(c) ==> visible_of(a)
            == visible_of(c),
{
}

/// A pointer stored into a slot at any epoch comes back out of it (by `load`,
/// `swap`, `take` or a successful compare-and-exchange) equal under `ptr_eq` to
/// the one stored, with the same user tag and the same block.
pub proof fn lemma_slot_round_trip<T>(w: u64, epoch: u64)
    ensures
        visible_of(stamped::<T>(w, epoch)) == visible_of(w),
        tag_of::<RcInner<T>>(stamped::<T>(w, epoch)) == tag_of::<RcInner<T>>(w),
        block_of(stamped::<T>(w, epoch)) == block_of(w),
{
    crate::tagged::lemma_with_high_tag::<RcInner<T>>(w, epoch);
    crate::domain::lemma_block_of_tags::<RcInner<T>>(w, 0, epoch);
}

/// Storing `x` into a slot and then swapping `y` in hands back `x`: the handle
/// returned is `ptr_eq` to `x`, with its user tag and its block.
pub proof fn lemma_store_then_swap<T>(x: u64, y: u64, e1: u64, e2: u64, after_store: u64, returned: u64, after_swap: u64)
    requires
        after_store == stamped::<T>(x, e1),
        returned == after_store,
        after_swap == stamped::<T>(y, e2),
    ensures
        visible_of(returned) == visible_of(x),
        tag_of::<RcInner<T>>(returned) == tag_of::<RcInner<T>>(x),
        block_of(returned) == block_of(x),
{
    lemma_slot_round_trip::<T>(x, e1);
}

/// A tag compare-and-exchange that asks for the tag already there leaves the slot
/// as it was, up to the epoch stamp: the same address and user tag, whether it
/// succeeds or fails. It takes the domain by shared reference and changes no
/// count.
pub proof fn lemma_compare_exchange_same_tag<T>(slot: u64, expected: u64, epoch: u64, after: u64)
    requires
        visible_of(slot) == visible_of(expected) ==> after == stamped::<T>(
            with_tag_of::<RcInner<T>>(expected, tag_of::<RcInner<T>>(expected)),
            epoch,
        ),
        visible_of(slot) != visible_of(expected) ==> after == slot,
    ensures
        visible_of(after) == visible_of(slot),
        tag_of::<RcInner<T>>(after) == tag_of::<RcInner<T>>(slot),
        block_of(after) == block_of(slot),
{
    let same = with_tag_of::<RcInner<T>>(expected, tag_of::<RcInner<T>>(expected));
    crate::tagged::lemma_low_mask::<RcInner<T>>();
    let m = crate::tagged::low_mask::<RcInner<T>>();
    assert((expected & !m) | (expected & m & m) == expected) by (bit_vector);
    assert(same == expected);
    lemma_slot_round_trip::<T>(expected, epoch);
    if visible_of(slot) == visible_of(expected) {
        crate::tagged::lemma_visible_determines_tag::<RcInner<T>>(slot, expected);
        crate::tagged::lemma_visible_determines_tag::<RcInner<T>>(after, slot);
        crate::domain::lemma_block_of_tags::<RcInner<T>>(after, 0, 0);
        crate::domain::lemma_block_of_tags::<RcInner<T>>(slot, 0, 0);
    }
}

/// Cloning a live handle and giving the clone back leaves the strong count as it
/// was, and every other block untouched.
pub proof fn lemma_clone_then_finalize<T: RcObject>(
    d0: Domain<T>,
    d1: Domain<T>,
    d2: Domain<T>,
    w: u64,
    guard: EpochGuard,
)
    requires
        d0.wf(),
        d0.holds(w),
        d0.block(w).spec_data() is Some,
        d0.block(w).spec_strong() >= 1,
        increment_post(d0, d1, w),
        decrement_post(d1, d2, w, 1, guard),
    ensures
        d2.block(w).spec_strong() == d0.block(w).spec_strong(),
        d2.spec_blocks().len() == d0.spec_blocks().len(),
        forall|j: int|
            0 <= j < d0.spec_blocks().len() && j != block_of(w) ==> #[trigger] d2.spec_blocks()[j]
                == d0.spec_blocks()[j],
        d2.spec_collector() == d0.spec_collector(),
{
    assert(d1.spec_blocks()[block_of(w)] == d1.block(w));
}

/// Counting a snapshot of a live block and giving the handle back leaves the
/// strong count as it was, and every other block untouched.
pub proof fn lemma_counted_then_finalize<T: RcObject>(
    d0: Domain<T>,
    d1: Domain<T>,
    d2: Domain<T>,
    w: u64,
    guard: EpochGuard,
)
    requires
        d0.wf(),
        d0.holds(w),
        d0.block(w).spec_data() is Some,
        d0.block(w).spec_strong() >= 1,
        increment_post(d0, d1, w),
        decrement_post(d1, d2, w, 1, guard),
    ensures
        d2.block(w).spec_strong() == d0.block(w).spec_strong(),
        d2.spec_blocks().len() == d0.spec_blocks().len(),
        forall|j: int|
            0 <= j < d0.spec_blocks().len() && j != block_of(w) ==> #[trigger] d2.spec_blocks()[j]
                == d0.spec_blocks()[j],
        d2.spec_collector() == d0.spec_collector(),
{
    lemma_clone_then_finalize(d0, d1, d2, w, guard);
}

proof fn lemma_new_many_step<T: RcObject>(
    ds: Seq<Domain<T>>,
    guards: Seq<EpochGuard>,
    w: u64,
    n: nat,
    k: int,
)
    requires
        n >= 1,
        ds.len() == n + 1,
        guards.len() == n,
        ds[0].wf(),
        ds[0].holds(w),
        ds[0].block(w).spec_data() is Some,
        ds[0].block(w).spec_strong() == n,
        forall|j: int| 0 <= j < n ==> decrement_post(#[trigger] ds[j], ds[j + 1], w, 1, guards[j]),
        0 <= k < n,
    ensures
        ds[k].holds(w),
        ds[k].block(w).spec_strong() == n - k,
        ds[k].block(w).spec_data() is Some,
    decreases k,
{
    if k > 0 {
        lemma_new_many_step(ds, guards, w, n, k - 1);
        assert(decrement_post(ds[k - 1], ds[k], w, 1, guards[k - 1]));
        assert(ds[k].spec_blocks()[block_of(w)] == ds[k].block(w));
    }
}

/// Giving back, one by one, the `n` handles of a block allocated with `n` handles
/// destroys it exactly once: every step but the last leaves the object alive with
/// one unit fewer and defers nothing, and the last brings the count to zero and
/// defers its destruction (or, under an unprotected guard, destroys it).
pub proof fn lemma_new_many_destroyed_once<T: RcObject>(
    ds: Seq<Domain<T>>,
    guards: Seq<EpochGuard>,
    w: u64,
    n: nat,
)
    requires
        n >= 1,
        ds.len() == n + 1,
        guards.len() == n,
        ds[0].wf(),
        ds[0].holds(w),
        ds[0].block(w).spec_data() is Some,
        ds[0].block(w).spec_strong() == n,
        forall|k: int| 0 <= k < n ==> decrement_post(#[trigger] ds[k], ds[k + 1], w, 1, guards[k]),
    ensures
        forall|k: int|
            0 <= k < n ==> {
                &&& (#[trigger] ds[k]).holds(w)
                &&& ds[k].block(w).spec_strong() == n - k
                &&& ds[k].block(w).spec_data() is Some
            },
        forall|k: int| 0 <= k < n - 1 ==> (#[trigger] ds[k + 1]).spec_collector() == ds[k].spec_collector(),
        ds[n as int].block(w).spec_strong() == 0,
        guards[n - 1].is_unprotected() ==> ds[n as int].block(w).spec_data() is None,
        !guards[n - 1].is_unprotected() ==> ds[n as int].spec_collector().spec_bag() == ds[n
            - 1].spec_collector().spec_bag().push(
            crate::ebr::Deferred {
                block: block_of(w) as usize,
                epoch: ds[n - 1].spec_collector().spec_global(),
            },
        ),
{
    assert forall|k: int| 0 <= k < n implies {
        &&& (#[trigger] ds[k]).holds(w)
        &&& ds[k].block(w).spec_strong() == n - k
        &&& ds[k].block(w).spec_data() is Some
    } by {
        lemma_new_many_step(ds, guards, w, n, k);
    }
    assert forall|k: int| 0 <= k < n - 1 implies (#[trigger] ds[k + 1]).spec_collector()
        == ds[k].spec_collector() by {
        lemma_new_many_step(ds, guards, w, n, k);
        assert(decrement_post(ds[k], ds[k + 1], w, 1, guards[k]));
    }
    lemma_new_many_step(ds, guards, w, n, n - 1);
    assert(decrement_post(ds[n - 1], ds[n as int], w, 1, guards[n - 1]));
}


proof fn lemma_strong_follows_handles_step<T: RcObject>(
    ds: Seq<Domain<T>>,
    adds: Seq<bool>,
    guards: Seq<EpochGuard>,
    hs: Seq<int>,
    w: u64,
    k: int,
)
    requires
        ds.len() == adds.len() + 1,
        hs.len() == adds.len() + 1,
        guards.len() == adds.len(),
        ds[0].wf(),
        ds[0].holds(w),
        ds[0].block(w).spec_strong() == hs[0],
        forall|j: int| 0 <= j < adds.len() ==> #[trigger] hs[j] >= 1,
        forall|j: int|
            0 <= j < adds.len() ==> #[trigger] hs[j + 1] == hs[j] + if adds[j] {
                1int
            } else {
                -1int
            },
        forall|j: int| 0 <= j < adds.len() && adds[j] ==> increment_post(#[trigger] ds[j], ds[j + 1], w),
        forall|j: int|
            0 <= j < adds.len() && !adds[j] ==> decrement_post(#[trigger] ds[j], ds[j + 1], w, 1, guards[j]),
        0 <= k <= adds.len(),
    ensures
        ds[k].wf(),
        ds[k].holds(w),
        ds[k].block(w).spec_strong() == hs[k],
    decreases k,
{
    if k > 0 {
        let j = k - 1;
        lemma_strong_follows_handles_step(ds, adds, guards, hs, w, j);
        assert(hs[j] >= 1);
        assert(hs[j + 1] == hs[j] + if adds[j] { 1int } else { -1int });
        assert(ds[j].spec_blocks()[block_of(w)] == ds[j].block(w));
        assert(ds[k].spec_blocks()[block_of(w)] == ds[k].block(w));
        if adds[j] {
            assert(increment_post(ds[j], ds[k], w));
        } else {
            assert(decrement_post(ds[j], ds[k], w, 1, guards[j]));
        }
    }
}

/// The strong count follows the handles: starting from a block with `hs[0]` strong
/// units, a run of steps that each add one handle (`clone`, `counted`) or give one
/// back (`finalize`) keeps the count equal to the number of handles, `hs[k]` after
/// `k` steps, as long as a handle remains before each step.
pub proof fn lemma_strong_follows_handles<T: RcObject>(
    ds: Seq<Domain<T>>,
    adds: Seq<bool>,
    guards: Seq<EpochGuard>,
    hs: Seq<int>,
    w: u64,
)
    requires
        ds.len() == adds.len() + 1,
        hs.len() == adds.len() + 1,
        guards.len() == adds.len(),
        ds[0].wf(),
        ds[0].holds(w),
        ds[0].block(w).spec_strong() == hs[0],
        forall|j: int| 0 <= j < adds.len() ==> #[trigger] hs[j] >= 1,
        forall|j: int|
            0 <= j < adds.len() ==> #[trigger] hs[j + 1] == hs[j] + if adds[j] {
                1int
            } else {
                -1int
            },
        forall|j: int| 0 <= j < adds.len() && adds[j] ==> increment_post(#[trigger] ds[j], ds[j + 1], w),
        forall|j: int|
            0 <= j < adds.len() && !adds[j] ==> decrement_post(#[trigger] ds[j], ds[j + 1], w, 1, guards[j]),
    ensures
        forall|k: int| 0 <= k <= adds.len() ==> (#[trigger] ds[k]).block(w).spec_strong() == hs[k],
{
    assert forall|k: int| 0 <= k <= adds.len() implies (#[trigger] ds[k]).block(w).spec_strong()
        == hs[k] by {
        lemma_strong_follows_handles_step(ds, adds, guards, hs, w, k);
    }
}


proof fn lemma_weak_follows_handles_step<T: RcObject>(
    ds: Seq<Domain<T>>,
    adds: Seq<bool>,
    handed: Seq<u64>,
    hs: Seq<int>,
    w: u64,
    k: int,
)
    requires
        ds.len() == adds.len() + 1,
        hs.len() == adds.len() + 1,
        handed.len() == adds.len(),
        ds[0].wf(),
        ds[0].holds(w),
        ds[0].block(w).spec_data() is Some,
        ds[0].block(w).spec_weak() == hs[0] + 1,
        forall|j: int| 0 <= j < adds.len() ==> #[trigger] hs[j] >= if adds[j] {
            0int
        } else {
            1int
        },
        forall|j: int|
            0 <= j < adds.len() ==> #[trigger] hs[j + 1] == hs[j] + if adds[j] {
                1int
            } else {
                -1int
            },
        forall|j: int|
            0 <= j < adds.len() && adds[j] ==> weak_add_post(#[trigger] ds[j], ds[j + 1], w, handed[j]),
        forall|j: int|
            0 <= j < adds.len() && !adds[j] ==> {
                &&& weak_release_post(#[trigger] ds[j], ds[j + 1], w)
                &&& ds[j + 1].wf()
                &&& ds[j + 1].spec_collector() == ds[j].spec_collector()
            },
        0 <= k <= adds.len(),
    ensures
        ds[k].wf(),
        ds[k].holds(w),
        ds[k].block(w).spec_data() is Some,
        ds[k].block(w).spec_weak() == hs[k] + 1,
        k < adds.len() && adds[k] ==> handed[k] == w,
    decreases k,
{
    if k > 0 {
        let j = k - 1;
        lemma_weak_follows_handles_step(ds, adds, handed, hs, w, j);
        assert(hs[j + 1] == hs[j] + if adds[j] { 1int } else { -1int });
        assert(hs[j] >= if adds[j] { 0int } else { 1int });
        assert(ds[k].spec_blocks()[block_of(w)] == ds[k].block(w));
        if adds[j] {
            assert(weak_add_post(ds[j], ds[k], w, handed[j]));
        } else {
            assert(weak_release_post(ds[j], ds[k], w));
        }
    }
    if k < adds.len() && adds[k] {
        assert(weak_add_post(ds[k], ds[k + 1], w, handed[k]));
    }
}

/// While the object is there, the weak count is the number of weak handles plus
/// the one ticket of the strong handles: starting from `hs[0]` weak handles, a run
/// of steps that each add a weak handle (`downgrade`, `Weak::clone`) or give one
/// back (`Weak::finalize`) keeps the weak count at `hs[k] + 1` after `k` steps, and
/// every handle added points to the block.
pub proof fn lemma_weak_follows_handles<T: RcObject>(
    ds: Seq<Domain<T>>,
    adds: Seq<bool>,
    handed: Seq<u64>,
    hs: Seq<int>,
    w: u64,
)
    requires
        ds.len() == adds.len() + 1,
        hs.len() == adds.len() + 1,
        handed.len() == adds.len(),
        ds[0].wf(),
        ds[0].holds(w),
        ds[0].block(w).spec_data() is Some,
        ds[0].block(w).spec_weak() == hs[0] + 1,
        forall|j: int| 0 <= j < adds.len() ==> #[trigger] hs[j] >= if adds[j] {
            0int
        } else {
            1int
        },
        forall|j: int|
            0 <= j < adds.len() ==> #[trigger] hs[j + 1] == hs[j] + if adds[j] {
                1int
            } else {
                -1int
            },
        forall|j: int|
            0 <= j < adds.len() && adds[j] ==> weak_add_post(#[trigger] ds[j], ds[j + 1], w, handed[j]),
        forall|j: int|
            0 <= j < adds.len() && !adds[j] ==> {
                &&& weak_release_post(#[trigger] ds[j], ds[j + 1], w)
                &&& ds[j + 1].wf()
                &&& ds[j + 1].spec_collector() == ds[j].spec_collector()
            },
    ensures
        forall|k: int| 0 <= k <= adds.len() ==> (#[trigger] ds[k]).block(w).spec_weak() == hs[k] + 1,
        forall|k: int| 0 <= k < adds.len() && adds[k] ==> #[trigger] handed[k] == w,
{
    assert forall|k: int| 0 <= k <= adds.len() implies (#[trigger] ds[k]).block(w).spec_weak()
        == hs[k] + 1 by {
        lemma_weak_follows_handles_step(ds, adds, handed, hs, w, k);
    }
    assert forall|k: int| 0 <= k < adds.len() && adds[k] implies #[trigger] handed[k] == w by {
        lemma_weak_follows_handles_step(ds, adds, handed, hs, w, k);
    }
}

} // verus!
