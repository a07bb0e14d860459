//! Reference-counted pointers for lock-free data structures, with epoch-based
//! reclamation and immediate recursive destruction of unreachable chains.
//!
//! Counted blocks live in a [`Domain`], which owns the blocks, the epoch
//! collector and the deferred work. Every operation of the protocol is one step
//! on the domain, taken through `&mut`: the contracts describe the effect of
//! each step on the counts, the epochs and the deferred work.
pub mod domain;
pub mod ebr;
pub mod inner;
pub mod strong;
pub mod tagged;

pub use domain::{Domain, Raw, MAX_BLOCKS};
pub use ebr::{AcquiredEBR, Collector, CsEBR, Deferred, EpochGuard, Local};
pub use inner::RcInner;
pub use strong::{
    AtomicRc, AtomicWeak, CompareExchangeError, EdgeTaker, NewRcIter, OwnRc, Pointer, Rc, RcObject, Snapshot, Weak,
    WeakSnapshot,
};
pub use tagged::{low_bits, with_tag, Tagged};
