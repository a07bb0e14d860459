//! The counted block: an object with its strong and weak counts and the epoch at
//! which its strong count last reached zero.
use vstd::prelude::*;

verus! {

/// An object of type `T` with its reference counts.
///
/// The strong count is the number of strong handles; the weak count is the
/// number of weak handles plus one ticket that all strong handles share. The
/// object is dropped (disposed) once the strong count has reached zero; the
/// block is free once the weak count has reached zero.
pub struct RcInner<T> {
    storage: Option<T>,
    strong: u32,
    weak: u32,
    destruct_epoch: u64,
}

impl<T> RcInner<T> {
    /// The object, while it has not been disposed.
    pub closed spec fn spec_data(&self) -> Option<T> {
        self.storage
    }

    /// The strong count.
    pub closed spec fn spec_strong(&self) -> nat {
        self.strong as nat
    }

    /// The weak count.
    pub closed spec fn spec_weak(&self) -> nat {
        self.weak as nat
    }

    /// The epoch at which the strong count last reached zero.
    pub closed spec fn spec_destruct_epoch(&self) -> u64 {
        self.destruct_epoch
    }

    /// The counts fit in their machine words.
    pub proof fn lemma_counts_bounded(&self)
        ensures
            self.spec_strong() <= u32::MAX,
            self.spec_weak() <= u32::MAX,
    {
    }

    /// A block whose weak count has reached zero is free.
    pub open spec fn is_freed(&self) -> bool {
        self.spec_weak() == 0
    }

    /// A disposed block has no strong handle left, and a block whose object is
    /// still there keeps the weak ticket of its strong handles.
    pub open spec fn wf(&self) -> bool {
        &&& self.spec_data() is None ==> self.spec_strong() == 0
        &&& self.spec_data() is Some ==> self.spec_weak() >= 1
    }

    /// A block holding `val` with one strong handle.
    pub fn new(val: T) -> (r: Self)
        ensures
            r.spec_data() == Some(val),
            r.spec_strong() == 1,
            r.spec_weak() == 1,
            r.spec_destruct_epoch() == 0,
            r.wf(),
    {
        Self::with_count(val, 1)
    }

    /// A block holding `val` with `count` strong handles.
    pub fn with_count(val: T, count: u32) -> (r: Self)
        ensures
            r.spec_data() == Some(val),
            r.spec_strong() == count,
            r.spec_weak() == 1,
            r.spec_destruct_epoch() == 0,
            r.wf(),
    {
        RcInner { storage: Some(val), strong: count, weak: 1, destruct_epoch: 0 }
    }

    /// Returns the object.
    pub fn data(&self) -> (r: &T)
        requires
            self.spec_data() is Some,
        ensures
            self.spec_data() == Some(*r),
    {
        self.storage.as_ref().unwrap()
    }

    /// Returns the object for mutation.
    pub fn data_mut(&mut self) -> (r: &mut T)
        requires
            old(self).spec_data() is Some,
        ensures
            old(self).spec_data() == Some(*r),
            final(self).spec_data() == Some(*final(r)),
            final(self).spec_strong() == old(self).spec_strong(),
            final(self).spec_weak() == old(self).spec_weak(),
            final(self).spec_destruct_epoch() == old(self).spec_destruct_epoch(),
    {
        self.storage.as_mut().unwrap()
    }

    /// Returns the object, or `None` once it has been disposed.
    pub fn get(&self) -> (r: Option<&T>)
        ensures
            r == match self.spec_data() {
                Some(x) => Some(&x),
                None => None::<&T>,
            },
    {
        self.storage.as_ref()
    }

    /// Returns the strong count.
    pub fn strong(&self) -> (r: u32)
        ensures
            r == self.spec_strong(),
    {
        self.strong
    }

    /// Returns the weak count.
    pub fn weak(&self) -> (r: u32)
        ensures
            r == self.spec_weak(),
    {
        self.weak
    }

    /// Returns the epoch at which the strong count last reached zero.
    pub fn destruct_epoch(&self) -> (r: u64)
        ensures
            r == self.spec_destruct_epoch(),
    {
        self.destruct_epoch
    }

    /// Returns `true` while the object has not been disposed.
    pub fn is_live(&self) -> (r: bool)
        ensures
            r == (self.spec_data() is Some),
    {
        self.storage.is_some()
    }

    /// Adds one strong handle. A block whose count had already reached zero is
    /// resurrected: it gains a second unit, so that the destruction already
    /// scheduled for it finds a count above zero and gives that unit back.
    pub fn increment_strong(&mut self)
        requires
            old(self).spec_strong() + 2 <= u32::MAX,
        ensures
            final(self).spec_strong() == if old(self).spec_strong() == 0 {
                2
            } else {
                old(self).spec_strong() + 1
            },
            final(self).spec_weak() == old(self).spec_weak(),
            final(self).spec_data() == old(self).spec_data(),
            final(self).spec_destruct_epoch() == old(self).spec_destruct_epoch(),
    {
        let prior = self.strong;
        self.strong = self.strong + 1;
        if prior == 0 {
            self.strong = self.strong + 1;
        }
    }

    /// Adds `n` weak handles.
    pub fn increment_weak(&mut self, n: u32)
        requires
            old(self).spec_weak() + n <= u32::MAX,
        ensures
            final(self).spec_weak() == old(self).spec_weak() + n,
            final(self).spec_strong() == old(self).spec_strong(),
            final(self).spec_data() == old(self).spec_data(),
            final(self).spec_destruct_epoch() == old(self).spec_destruct_epoch(),
    {
        self.weak = self.weak + n;
    }

    /// Removes `n` strong handles; returns `true` when this brings the count to zero.
    pub fn decrement_strong(&mut self, n: u32) -> (zero: bool)
        requires
            n <= old(self).spec_strong(),
        ensures
            final(self).spec_strong() == old(self).spec_strong() - n,
            zero == (old(self).spec_strong() == n),
            final(self).spec_weak() == old(self).spec_weak(),
            final(self).spec_data() == old(self).spec_data(),
            final(self).spec_destruct_epoch() == old(self).spec_destruct_epoch(),
    {
        let prior = self.strong;
        self.strong = self.strong - n;
        prior == n
    }

    /// Removes one weak handle; returns `true` when this frees the block.
    pub fn decrement_weak(&mut self) -> (freed: bool)
        requires
            old(self).spec_weak() >= 1,
        ensures
            final(self).spec_weak() == old(self).spec_weak() - 1,
            freed == (old(self).spec_weak() == 1),
            final(self).spec_strong() == old(self).spec_strong(),
            final(self).spec_data() == old(self).spec_data(),
            final(self).spec_destruct_epoch() == old(self).spec_destruct_epoch(),
    {
        let prior = self.weak;
        self.weak = self.weak - 1;
        prior == 1
    }

    /// Records the epoch at which the strong count reached zero.
    pub fn set_destruct_epoch(&mut self, epoch: u64)
        ensures
            final(self).spec_destruct_epoch() == epoch,
            final(self).spec_strong() == old(self).spec_strong(),
            final(self).spec_weak() == old(self).spec_weak(),
            final(self).spec_data() == old(self).spec_data(),
    {
        self.destruct_epoch = epoch;
    }

    /// Takes the object out of the block, leaving it disposed.
    pub fn dispose(&mut self) -> (r: Option<T>)
        ensures
            r == old(self).spec_data(),
            final(self).spec_data() is None,
            final(self).spec_strong() == old(self).spec_strong(),
            final(self).spec_weak() == old(self).spec_weak(),
            final(self).spec_destruct_epoch() == old(self).spec_destruct_epoch(),
    {
        self.storage.take()
    }
}

} // verus!
