//! The domain: the counted blocks of one object type, the epoch collector, and
//! the reference-count protocol with immediate recursive destruction.
use vstd::prelude::*;

use crate::ebr::{expired, lemma_expired_unobserved, Collector, Deferred, EpochGuard, Local};
use crate::inner::RcInner;
use crate::strong::{EdgeTaker, RcObject};
use crate::tagged::{
    high_tag_of, lemma_low_mask, low_mask, raw_of, tag_of, with_high_tag_of, with_tag_of,
    Tagged, HIGH_TAG_LIMIT,
};

verus! {

/// A word that points to a counted block of `T`.
pub type Raw<T> = Tagged<RcInner<T>>;

/// The most blocks that a domain can hold: their addresses use bits 16 to 47.
pub const MAX_BLOCKS: usize = 0xffff_fffe;

/// The address of block `i`.
pub open spec fn address_of(i: int) -> u64 {
    (((i + 1) as u64) << 16u64) as u64
}

/// The block that word `w` points to; -1 for a null word.
pub open spec fn block_of(w: u64) -> int {
    ((w >> 16u64) & 0xffff_ffffu64) as int - 1
}

/// Distance, in epochs modulo the stamp's range, from a stamp to the guard's epoch.
pub open spec fn stamp_age(guard_epoch: u64, stamp: u64) -> int {
    ((guard_epoch % HIGH_TAG_LIMIT) + HIGH_TAG_LIMIT - stamp) % (HIGH_TAG_LIMIT as int)
}

/// Whether an edge whose target has just lost its last strong handle is destroyed
/// at once: under an unprotected guard, or when its stamp is two epochs or more
/// behind the guard's epoch. Stamps are kept modulo 2^16, so a distance of half
/// that range or more is read as a stamp newer than the guard, which defers.
pub open spec fn destroy_inline(g: EpochGuard, w: u64) -> bool {
    g.is_unprotected() || (2 <= stamp_age(g.spec_epoch(), high_tag_of(w)) < HIGH_TAG_LIMIT / 2)
}

/// Block addresses decode to their index, carry no tag and are not null.
pub proof fn lemma_address<T>(i: int)
    requires
        0 <= i < MAX_BLOCKS,
    ensures
        block_of(address_of(i)) == i,
        tag_of::<T>(address_of(i)) == 0,
        raw_of::<T>(address_of(i)) == address_of(i),
        raw_of::<T>(address_of(i)) != 0,
        high_tag_of(address_of(i)) == 0,
{
    lemma_low_mask::<T>();
    let m = low_mask::<T>();
    let x = (i + 1) as u64;
    assert(((((x << 16u64) >> 16u64) & 0xffff_ffffu64) == x) && (x << 16u64) & m == 0 && (x
        << 16u64) & !m & !0xffff_0000_0000_0000u64 == (x << 16u64) && (x << 16u64) != 0 && ((x
        << 16u64) >> 48u64) == 0) by (bit_vector)
        requires
            1 <= x <= 0xffff_ffffu64,
            m < 0x1_0000,
    ;
}

/// Neither tag changes the block that a word points to, and a null word points to
/// no block.
pub proof fn lemma_block_of_tags<T>(w: u64, t: u64, e: u64)
    ensures
        block_of(with_tag_of::<T>(w, t)) == block_of(w),
        block_of(with_high_tag_of(w, e)) == block_of(w),
        raw_of::<T>(w) == 0 ==> block_of(w) == -1,
        block_of(raw_of::<T>(w)) == block_of(w),
{
    lemma_low_mask::<T>();
    let m = low_mask::<T>();
    let s = e % 0x1_0000;
    assert((((w & !m) | (t & m)) >> 16u64) & 0xffff_ffffu64 == (w >> 16u64) & 0xffff_ffffu64
        && (((w & !0xffff_0000_0000_0000u64) | (s << 48u64)) >> 16u64) & 0xffff_ffffu64 == (w
        >> 16u64) & 0xffff_ffffu64 && (w & !m & !0xffff_0000_0000_0000u64 == 0 ==> (w >> 16u64)
        & 0xffff_ffffu64 == 0) && ((w & !m & !0xffff_0000_0000_0000u64) >> 16u64) & 0xffff_ffffu64
        == (w >> 16u64) & 0xffff_ffffu64) by (bit_vector)
        requires
            m < 0x1_0000,
            s < 0x1_0000,
    ;
}

/// Number of blocks with a strong count above zero.
pub open spec fn live_count<T>(s: Seq<RcInner<T>>) -> nat
    decreases s.len(),
{
    if s.len() == 0 {
        0
    } else {
        live_count(s.drop_last()) + if s.last().spec_strong() > 0 {
            1nat
        } else {
            0nat
        }
    }
}

proof fn lemma_live_count_update<T>(s: Seq<RcInner<T>>, i: int, v: RcInner<T>)
    requires
        0 <= i < s.len(),
    ensures
        live_count(s.update(i, v)) + (if s[i].spec_strong() > 0 {
            1nat
        } else {
            0nat
        }) == live_count(s) + (if v.spec_strong() > 0 {
            1nat
        } else {
            0nat
        }),
    decreases s.len(),
{
    if i == s.len() - 1 {
        assert(s.update(i, v).drop_last() =~= s.drop_last());
    } else {
        assert(s.update(i, v).drop_last() =~= s.drop_last().update(i, v));
        lemma_live_count_update(s.drop_last(), i, v);
    }
}

/// Block `b` follows from block `a` by giving back strong units and, when it
/// disposes the object, exactly the weak ticket of the strong handles.
pub open spec fn released_block<T>(a: RcInner<T>, b: RcInner<T>) -> bool {
    &&& b.spec_strong() <= a.spec_strong()
    &&& if a.spec_data() is Some && b.spec_data() is None {
        b.spec_weak() == a.spec_weak() - 1
    } else {
        &&& b.spec_data() == a.spec_data()
        &&& b.spec_weak() == a.spec_weak()
    }
}

/// `new` follows from `old` by giving back strong counts, disposing objects, and
/// giving back the weak ticket of each object disposed.
pub open spec fn released<T>(old: Seq<RcInner<T>>, new: Seq<RcInner<T>>) -> bool {
    &&& new.len() == old.len()
    &&& forall|j: int| 0 <= j < old.len() ==> released_block(old[j], #[trigger] new[j])
}

/// `new` follows from `old` by deferring more work at the same epoch.
pub open spec fn deferred_more(old: Collector, new: Collector) -> bool {
    &&& new.spec_global() == old.spec_global()
    &&& new.spec_locals() == old.spec_locals()
    &&& old.spec_bag().len() <= new.spec_bag().len()
    &&& new.spec_bag().take(old.spec_bag().len() as int) == old.spec_bag()
}

/// `new` is `old` with the strong count of block `i` set to `strong` and its
/// destruction epoch to `epoch`; all else is equal.
pub open spec fn strong_set<T>(
    old: Seq<RcInner<T>>,
    new: Seq<RcInner<T>>,
    i: int,
    strong: nat,
    epoch: u64,
) -> bool {
    &&& new.len() == old.len()
    &&& forall|j: int| 0 <= j < old.len() && j != i ==> #[trigger] new[j] == old[j]
    &&& new[i].spec_strong() == strong
    &&& new[i].spec_destruct_epoch() == epoch
    &&& new[i].spec_data() == old[i].spec_data()
    &&& new[i].spec_weak() == old[i].spec_weak()
}

/// `new` is `old` with the weak count of block `i` set to `weak`; all else is equal.
pub open spec fn weak_set<T>(old: Seq<RcInner<T>>, new: Seq<RcInner<T>>, i: int, weak: nat) -> bool {
    &&& new.len() == old.len()
    &&& forall|j: int| 0 <= j < old.len() && j != i ==> #[trigger] new[j] == old[j]
    &&& new[i].spec_weak() == weak
    &&& new[i].spec_strong() == old[i].spec_strong()
    &&& new[i].spec_destruct_epoch() == old[i].spec_destruct_epoch()
    &&& new[i].spec_data() == old[i].spec_data()
}

proof fn lemma_released_trans<T>(a: Seq<RcInner<T>>, b: Seq<RcInner<T>>, c: Seq<RcInner<T>>)
    requires
        released(a, b),
        released(b, c),
    ensures
        released(a, c),
{
    assert forall|j: int| 0 <= j < a.len() implies released_block(a[j], #[trigger] c[j]) by {
        assert(released_block(a[j], b[j]));
        assert(released_block(b[j], c[j]));
    }
}

/// Deferring nothing is deferring more.
pub proof fn lemma_deferred_more_refl(c: Collector)
    ensures
        deferred_more(c, c),
{
    assert(c.spec_bag().take(c.spec_bag().len() as int) =~= c.spec_bag());
}

proof fn lemma_deferred_more_trans(a: Collector, b: Collector, c: Collector)
    requires
        deferred_more(a, b),
        deferred_more(b, c),
    ensures
        deferred_more(a, c),
{
    assert(c.spec_bag().take(a.spec_bag().len() as int) =~= b.spec_bag().take(
        a.spec_bag().len() as int,
    ));
}

/// Distance, in epochs modulo the stamp's range, from the stamp `stamp` to the
/// epoch `guard_epoch`.
pub fn epoch_distance(guard_epoch: u64, stamp: u64) -> (r: u64)
    requires
        stamp < HIGH_TAG_LIMIT,
    ensures
        r == stamp_age(guard_epoch, stamp),
{
    ((guard_epoch % HIGH_TAG_LIMIT) + HIGH_TAG_LIMIT - stamp) % HIGH_TAG_LIMIT
}

/// The effect of adding one strong handle to the block that `w` points to: while
/// its object is there the count grows by one, or by two when it had reached zero;
/// nothing else changes.
pub open spec fn increment_post<T: RcObject>(d0: Domain<T>, d1: Domain<T>, w: u64) -> bool {
    &&& d1.wf()
    &&& d1.spec_collector() == d0.spec_collector()
    &&& if d0.holds(w) && d0.block(w).spec_data() is Some {
        strong_set(
            d0.spec_blocks(),
            d1.spec_blocks(),
            block_of(w),
            if d0.block(w).spec_strong() == 0 {
                2
            } else {
                d0.block(w).spec_strong() + 1
            },
            d0.block(w).spec_destruct_epoch(),
        )
    } else {
        d1.spec_blocks() == d0.spec_blocks()
    }
}

/// The effect of giving back `n` strong units of the block that `w` points to
/// under `guard`. When they were its last units, its destruction epoch becomes
/// the global epoch and its destruction is deferred, or, under an unprotected
/// guard, done at once. Nothing happens when `w` points to no block, `n` is zero,
/// or the block holds fewer than `n` units.
pub open spec fn decrement_post<T: RcObject>(
    d0: Domain<T>,
    d1: Domain<T>,
    w: u64,
    n: u32,
    guard: EpochGuard,
) -> bool {
    &&& d1.wf()
    &&& released(d0.spec_blocks(), d1.spec_blocks())
    &&& deferred_more(d0.spec_collector(), d1.spec_collector())
    &&& settled(
        d0.spec_blocks(),
        d0.spec_collector().spec_bag().len() as int,
        d0.spec_collector().spec_global(),
        d1,
        Seq::<usize>::empty(),
    )
    &&& if d0.holds(w) && 1 <= n <= d0.block(w).spec_strong() {
        let i = block_of(w);
        let blk = d0.block(w);
        let global = d0.spec_collector().spec_global();
        if blk.spec_strong() == n {
            if guard.is_unprotected() {
                &&& d1.spec_blocks()[i].spec_strong() == 0
                &&& d1.spec_blocks()[i].spec_data() is None
                &&& d1.spec_collector() == d0.spec_collector()
            } else {
                &&& strong_set(d0.spec_blocks(), d1.spec_blocks(), i, 0, global)
                &&& d1.spec_collector().spec_bag() == d0.spec_collector().spec_bag().push(
                    Deferred { block: i as usize, epoch: global },
                )
            }
        } else {
            &&& strong_set(
                d0.spec_blocks(),
                d1.spec_blocks(),
                i,
                (blk.spec_strong() - n) as nat,
                blk.spec_destruct_epoch(),
            )
            &&& d1.spec_collector() == d0.spec_collector()
        }
    } else {
        &&& d1.spec_blocks() == d0.spec_blocks()
        &&& d1.spec_collector() == d0.spec_collector()
    }
}

/// `d1` differs from `d0` at most in the objects that blocks hold: every count,
/// every destruction epoch, which objects are there, and the collector are kept.
pub open spec fn counts_kept<T: RcObject>(d0: Domain<T>, d1: Domain<T>) -> bool {
    &&& d1.spec_collector() == d0.spec_collector()
    &&& d1.spec_blocks().len() == d0.spec_blocks().len()
    &&& forall|j: int|
        0 <= j < d0.spec_blocks().len() ==> {
            &&& (#[trigger] d1.spec_blocks()[j]).spec_strong() == d0.spec_blocks()[j].spec_strong()
            &&& d1.spec_blocks()[j].spec_weak() == d0.spec_blocks()[j].spec_weak()
            &&& d1.spec_blocks()[j].spec_destruct_epoch() == d0.spec_blocks()[j].spec_destruct_epoch()
            &&& (d1.spec_blocks()[j].spec_data() is Some) == (d0.spec_blocks()[j].spec_data() is Some)
        }
}

impl<T: RcObject> Tagged<RcInner<T>> {
    /// Returns the block that this word points to, which must be one of `domain`'s.
    pub fn deref<'a>(&self, domain: &'a Domain<T>) -> (r: &'a RcInner<T>)
        requires
            domain.wf(),
            domain.holds(self@),
        ensures
            *r == domain.block(self@),
    {
        domain.block_at(*self)
    }
}

/// The effect of adding one weak handle to the block that `w` points to, handed
/// out as `r`: while its object is there the weak count grows by one and `r` is
/// `w`; otherwise nothing changes and `r` is null.
pub open spec fn weak_add_post<T: RcObject>(d0: Domain<T>, d1: Domain<T>, w: u64, r: u64) -> bool {
    &&& d1.wf()
    &&& d1.spec_collector() == d0.spec_collector()
    &&& if d0.holds(w) && d0.block(w).spec_data() is Some {
        &&& r == w
        &&& weak_set(d0.spec_blocks(), d1.spec_blocks(), block_of(w), d0.block(w).spec_weak() + 1)
    } else {
        &&& r == 0
        &&& d1.spec_blocks() == d0.spec_blocks()
    }
}

/// The effect of giving back one weak unit of the block that `w` points to. The
/// ticket that the strong handles share is never given back this way: nothing
/// changes when it is the only unit left, or when `w` points to no block.
pub open spec fn weak_release_post<T: RcObject>(d0: Domain<T>, d1: Domain<T>, w: u64) -> bool {
    let blk = d0.block(w);
    let floor: nat = if blk.spec_data() is Some {
        1
    } else {
        0
    };
    if d0.holds(w) && blk.spec_weak() > floor {
        weak_set(d0.spec_blocks(), d1.spec_blocks(), block_of(w), (blk.spec_weak() - 1) as nat)
    } else {
        d1.spec_blocks() == d0.spec_blocks()
    }
}

/// Some deferred item of `c`, at index `from` or later, is for block `j` at epoch
/// `global`.
pub open spec fn deferred_at(c: Collector, from: int, j: int, global: u64) -> bool {
    exists|k: int|
        from <= k < c.spec_bag().len() && #[trigger] c.spec_bag()[k] == Deferred {
            block: j as usize,
            epoch: global,
        }
}

/// No unit loss goes unanswered: every block that had strong units in `b0` and has
/// none in `d1` is disposed in `d1`, is queued on `work`, or has a destruction
/// deferred at `global` among `d1`'s deferred items from index `bag_len` on.
pub open spec fn settled<T: RcObject>(
    b0: Seq<RcInner<T>>,
    bag_len: int,
    global: u64,
    d1: Domain<T>,
    work: Seq<usize>,
) -> bool {
    forall|j: int|
        0 <= j < b0.len() && b0[j].spec_strong() > 0 && (#[trigger] d1.spec_blocks()[j]).spec_strong()
            == 0 ==> {
            ||| d1.spec_blocks()[j].spec_data() is None
            ||| work.contains(j as usize)
            ||| deferred_at(d1.spec_collector(), bag_len, j, global)
        }
}

proof fn lemma_settled_step<T: RcObject>(
    b0: Seq<RcInner<T>>,
    bag_len: int,
    global: u64,
    s1: Domain<T>,
    w1: Seq<usize>,
    s2: Domain<T>,
    w2: Seq<usize>,
)
    requires
        settled(b0, bag_len, global, s1, w1),
        s1.wf(),
        0 <= bag_len,
        b0.len() == s1.spec_blocks().len(),
        released(s1.spec_blocks(), s2.spec_blocks()),
        deferred_more(s1.spec_collector(), s2.spec_collector()),
        bag_len <= s1.spec_collector().spec_bag().len(),
        forall|x: usize|
            #![trigger w1.contains(x)]
            w1.contains(x) && x < b0.len() ==> w2.contains(x) || s2.spec_blocks()[x as int].spec_data() is None,
        forall|j: int|
            0 <= j < b0.len() && s1.spec_blocks()[j].spec_strong() > 0 && (
            #[trigger] s2.spec_blocks()[j]).spec_strong() == 0 ==> {
                ||| s2.spec_blocks()[j].spec_data() is None
                ||| w2.contains(j as usize)
                ||| deferred_at(s2.spec_collector(), bag_len, j, global)
            },
    ensures
        settled(b0, bag_len, global, s2, w2),
{
    assert forall|j: int|
        0 <= j < b0.len() && b0[j].spec_strong() > 0 && (#[trigger] s2.spec_blocks()[j]).spec_strong()
            == 0 implies {
        ||| s2.spec_blocks()[j].spec_data() is None
        ||| w2.contains(j as usize)
        ||| deferred_at(s2.spec_collector(), bag_len, j, global)
    } by {
        assert(released_block(s1.spec_blocks()[j], s2.spec_blocks()[j]));
        if s1.spec_blocks()[j].spec_strong() == 0 {
            let d1 = s1.spec_blocks()[j];
            assert(d1.spec_data() is None || w1.contains(j as usize) || deferred_at(
                s1.spec_collector(),
                bag_len,
                j,
                global,
            ));
            if d1.spec_data() is None {
            } else if w1.contains(j as usize) {
            } else {
                let k = choose|k: int|
                    bag_len <= k < s1.spec_collector().spec_bag().len()
                        && #[trigger] s1.spec_collector().spec_bag()[k] == Deferred {
                        block: j as usize,
                        epoch: global,
                    };
                let n1 = s1.spec_collector().spec_bag().len() as int;
                assert(s2.spec_collector().spec_bag().take(n1) == s1.spec_collector().spec_bag());
                assert(s2.spec_collector().spec_bag().take(n1)[k] == s2.spec_collector().spec_bag()[k]);
                assert(s2.spec_collector().spec_bag()[k] == Deferred { block: j as usize, epoch: global });
            }
        }
    }
}

/// Moving the start of the search back keeps a deferred item found.
proof fn lemma_deferred_at_from(c: Collector, from: int, earlier: int, j: int, global: u64)
    requires
        deferred_at(c, from, j, global),
        earlier <= from,
    ensures
        deferred_at(c, earlier, j, global),
{
    let k = choose|k: int|
        from <= k < c.spec_bag().len() && #[trigger] c.spec_bag()[k] == Deferred {
            block: j as usize,
            epoch: global,
        };
    assert(earlier <= k < c.spec_bag().len());
}

proof fn lemma_edge_settled<T: RcObject>(
    s1: Domain<T>,
    s2: Domain<T>,
    w1: Seq<usize>,
    w2: Seq<usize>,
    e: u64,
    guard: EpochGuard,
    b0: Seq<RcInner<T>>,
    bag_len: int,
    global: u64,
)
    requires
        settled(b0, bag_len, global, s1, w1),
        s1.wf(),
        0 <= bag_len <= s1.spec_collector().spec_bag().len(),
        b0.len() == s1.spec_blocks().len(),
        global == s1.spec_collector().spec_global(),
        released(s1.spec_blocks(), s2.spec_blocks()),
        deferred_more(s1.spec_collector(), s2.spec_collector()),
        if s1.holds(e) && s1.block(e).spec_strong() > 0 {
            let t = block_of(e);
            if s1.block(e).spec_strong() == 1 {
                &&& strong_set(s1.spec_blocks(), s2.spec_blocks(), t, 0, global)
                &&& if destroy_inline(guard, e) {
                    &&& w2 == w1.push(t as usize)
                    &&& s2.spec_collector() == s1.spec_collector()
                } else {
                    &&& w2 == w1
                    &&& s2.spec_collector().spec_bag() == s1.spec_collector().spec_bag().push(
                        Deferred { block: t as usize, epoch: global },
                    )
                }
            } else {
                &&& strong_set(
                    s1.spec_blocks(),
                    s2.spec_blocks(),
                    t,
                    (s1.block(e).spec_strong() - 1) as nat,
                    s1.block(e).spec_destruct_epoch(),
                )
                &&& w2 == w1
                &&& s2.spec_collector() == s1.spec_collector()
            }
        } else {
            &&& s2.spec_blocks() == s1.spec_blocks()
            &&& s2.spec_collector() == s1.spec_collector()
            &&& w2 == w1
        },
    ensures
        settled(b0, bag_len, global, s2, w2),
{
    assert forall|x: usize| w1.contains(x) && x < b0.len() implies w2.contains(x)
        || s2.spec_blocks()[x as int].spec_data() is None by {
        let n = choose|n: int| 0 <= n < w1.len() && w1[n] == x;
        assert(w2[n] == x);
    }
    let t = block_of(e);
    assert forall|j: int|
        0 <= j < b0.len() && s1.spec_blocks()[j].spec_strong() > 0 && (
        #[trigger] s2.spec_blocks()[j]).spec_strong() == 0 implies {
        ||| s2.spec_blocks()[j].spec_data() is None
        ||| w2.contains(j as usize)
        ||| deferred_at(s2.spec_collector(), bag_len, j, global)
    } by {
        if s1.holds(e) && s1.block(e).spec_strong() > 0 && j == t {
            if s1.block(e).spec_strong() == 1 {
                if destroy_inline(guard, e) {
                    assert(w2[w1.len() as int] == j as usize);
                } else {
                    let n1 = s1.spec_collector().spec_bag().len() as int;
                    assert(s2.spec_collector().spec_bag()[n1] == Deferred {
                        block: j as usize,
                        epoch: global,
                    });
                }
            }
        } else {
            assert(s2.spec_blocks()[j] == s1.spec_blocks()[j]);
        }
    }
    lemma_settled_step(b0, bag_len, global, s1, w1, s2, w2);
}

/// The effect of running the expired deferred destructions of `d0`:
/// - the unexpired items stay, in their order, ahead of anything deferred anew,
///   and the epoch and the participants are kept;
/// - every item run is older than every participant pinned;
/// - each block that an expired item names loses a strong unit if it had one (the
///   unit of a resurrection), and is disposed if it had none;
/// - every block that loses its last unit meanwhile is disposed or deferred anew.
pub open spec fn collect_post<T: RcObject>(d0: Domain<T>, d1: Domain<T>) -> bool {
    let c0 = d0.spec_collector();
    let kept = c0.spec_bag().filter(|d: Deferred| !expired(d, c0.spec_global()));
    &&& d1.wf()
    &&& released(d0.spec_blocks(), d1.spec_blocks())
    &&& d1.spec_collector().spec_global() == c0.spec_global()
    &&& d1.spec_collector().spec_locals() == c0.spec_locals()
    &&& kept.len() <= d1.spec_collector().spec_bag().len()
    &&& d1.spec_collector().spec_bag().take(kept.len() as int) == kept
    &&& forall|k: int, p: int|
        0 <= k < c0.spec_bag().len() && expired(#[trigger] c0.spec_bag()[k], c0.spec_global()) && 0
            <= p < c0.spec_locals().len() && (#[trigger] c0.spec_locals()[p]).pinned
            ==> c0.spec_bag()[k].epoch < c0.spec_locals()[p].epoch
    &&& forall|k: int|
        0 <= k < c0.spec_bag().len() && expired(#[trigger] c0.spec_bag()[k], c0.spec_global()) ==> {
            let b = c0.spec_bag()[k].block as int;
            &&& d0.spec_blocks()[b].spec_strong() == 0 ==> d1.spec_blocks()[b].spec_data() is None
            &&& d0.spec_blocks()[b].spec_strong() > 0 ==> d1.spec_blocks()[b].spec_strong()
                < d0.spec_blocks()[b].spec_strong()
        }
    &&& settled(d0.spec_blocks(), kept.len() as int, c0.spec_global(), d1, Seq::<usize>::empty())
}

/// The global epoch after a participant's repin at `global`, with the participants
/// `locals` once its pin is released: one more when every pinned participant holds
/// `global` and it can grow.
pub open spec fn repin_epoch(global: u64, locals: Seq<Local>) -> u64 {
    if global < u64::MAX && forall|i: int|
        0 <= i < locals.len() && (#[trigger] locals[i]).pinned ==> locals[i].epoch == global {
        (global + 1) as u64
    } else {
        global
    }
}

/// The counted blocks of one object type, with their epoch collector.
pub struct Domain<T> {
    blocks: Vec<RcInner<T>>,
    collector: Collector,
}

impl<T: RcObject> Domain<T> {
    /// The blocks, by index.
    pub closed spec fn spec_blocks(&self) -> Seq<RcInner<T>> {
        self.blocks@
    }

    /// The epoch collector.
    pub closed spec fn spec_collector(&self) -> Collector {
        self.collector
    }

    /// Whether word `w` points to a block of this domain.
    pub open spec fn holds(&self, w: u64) -> bool {
        0 <= block_of(w) < self.spec_blocks().len()
    }

    /// The block that word `w` points to.
    pub open spec fn block(&self, w: u64) -> RcInner<T> {
        self.spec_blocks()[block_of(w)]
    }

    /// The collector is well formed, every block is, and every deferred item names
    /// a block.
    pub open spec fn wf(&self) -> bool {
        &&& self.spec_collector().wf()
        &&& self.spec_blocks().len() <= MAX_BLOCKS
        &&& forall|i: int|
            0 <= i < self.spec_blocks().len() ==> (#[trigger] self.spec_blocks()[i]).wf()
        &&& forall|j: int|
            0 <= j < self.spec_collector().spec_bag().len() ==> (
            #[trigger] self.spec_collector().spec_bag()[j]).block < self.spec_blocks().len()
    }

    /// An empty domain at epoch zero.
    pub fn new() -> (r: Self)
        ensures
            r.wf(),
            r.spec_blocks() == Seq::<RcInner<T>>::empty(),
            r.spec_collector().spec_global() == 0,
            r.spec_collector().spec_locals() == Seq::<Local>::empty(),
            r.spec_collector().spec_bag() == Seq::<Deferred>::empty(),
    {
        Domain { blocks: Vec::new(), collector: Collector::new() }
    }

    /// Returns the global epoch.
    pub fn global_epoch(&self) -> (r: u64)
        ensures
            r == self.spec_collector().spec_global(),
    {
        self.collector.global_epoch()
    }

    /// Returns the number of blocks ever allocated.
    pub fn len(&self) -> (r: usize)
        ensures
            r == self.spec_blocks().len(),
    {
        self.blocks.len()
    }

    /// Returns the number of deferred destructions.
    pub fn deferred_len(&self) -> (r: usize)
        ensures
            r == self.spec_collector().spec_bag().len(),
    {
        self.collector.deferred_len()
    }

    /// Returns the index of the block that `w` points to, if it is one of this
    /// domain's.
    pub fn index_of(&self, w: Raw<T>) -> (r: Option<usize>)
        ensures
            r == if self.holds(w@) {
                Some(block_of(w@) as usize)
            } else {
                None::<usize>
            },
    {
        proof {
            lemma_block_of_tags::<RcInner<T>>(w@, 0, 0);
        }
        let raw = w.as_raw();
        let b = (raw >> 16u64) & 0xffff_ffffu64;
        assert(b <= 0xffff_ffffu64) by (bit_vector)
            requires
                b == (raw >> 16u64) & 0xffff_ffffu64,
        ;
        if b == 0 || b as usize > self.blocks.len() {
            None
        } else {
            Some((b - 1) as usize)
        }
    }

    /// Allocates a block holding `obj` with `count` strong handles and returns its
    /// address.
    pub fn allocate(&mut self, obj: T, count: u32) -> (r: Raw<T>)
        requires
            old(self).wf(),
            old(self).spec_blocks().len() < MAX_BLOCKS,
        ensures
            final(self).wf(),
            r@ == address_of(old(self).spec_blocks().len() as int),
            final(self).holds(r@),
            block_of(r@) == old(self).spec_blocks().len(),
            tag_of::<RcInner<T>>(r@) == 0,
            raw_of::<RcInner<T>>(r@) != 0,
            final(self).spec_blocks().len() == old(self).spec_blocks().len() + 1,
            final(self).spec_blocks().drop_last() == old(self).spec_blocks(),
            final(self).spec_blocks().last().spec_data() == Some(obj),
            final(self).spec_blocks().last().spec_strong() == count,
            final(self).spec_blocks().last().spec_weak() == 1,
            final(self).spec_collector() == old(self).spec_collector(),
    {
        let i = self.blocks.len();
        self.blocks.push(RcInner::with_count(obj, count));
        proof {
            assert(self.blocks@.drop_last() =~= old(self).blocks@);
            lemma_address::<RcInner<T>>(i as int);
        }
        Tagged::new((i as u64 + 1) << 16u64)
    }

    /// Adds a participant and returns its index.
    pub fn register(&mut self) -> (id: usize)
        requires
            old(self).wf(),
            old(self).spec_collector().spec_locals().len() < usize::MAX,
        ensures
            final(self).wf(),
            id == old(self).spec_collector().spec_locals().len(),
            final(self).spec_collector().spec_locals() == old(
                self,
            ).spec_collector().spec_locals().push(
                Local { pinned: false, epoch: old(self).spec_collector().spec_global() },
            ),
            final(self).spec_collector().spec_global() == old(self).spec_collector().spec_global(),
            final(self).spec_collector().spec_bag() == old(self).spec_collector().spec_bag(),
            final(self).spec_blocks() == old(self).spec_blocks(),
    {
        self.collector.register()
    }

    /// Pins participant `local` at the global epoch.
    pub fn pin(&mut self, local: usize) -> (g: EpochGuard)
        requires
            old(self).wf(),
            local < old(self).spec_collector().spec_locals().len(),
        ensures
            final(self).wf(),
            final(self).spec_collector().spec_locals() == old(
                self,
            ).spec_collector().spec_locals().update(
                local as int,
                Local { pinned: true, epoch: old(self).spec_collector().spec_global() },
            ),
            final(self).spec_collector().spec_global() == old(self).spec_collector().spec_global(),
            final(self).spec_collector().spec_bag() == old(self).spec_collector().spec_bag(),
            final(self).spec_blocks() == old(self).spec_blocks(),
            g.spec_local() == local,
            g.spec_epoch() == old(self).spec_collector().spec_global(),
    {
        self.collector.pin(local)
    }

    /// Releases `guard`'s pin.
    pub fn unpin(&mut self, guard: EpochGuard)
        requires
            old(self).wf(),
        ensures
            final(self).wf(),
            final(self).spec_collector().spec_locals() == if guard.spec_local() < old(
                self,
            ).spec_collector().spec_locals().len() {
                old(self).spec_collector().spec_locals().update(
                    guard.spec_local() as int,
                    Local {
                        pinned: false,
                        epoch: old(self).spec_collector().spec_locals()[guard.spec_local() as int].epoch,
                    },
                )
            } else {
                old(self).spec_collector().spec_locals()
            },
            final(self).spec_collector().spec_global() == old(self).spec_collector().spec_global(),
            final(self).spec_collector().spec_bag() == old(self).spec_collector().spec_bag(),
            final(self).spec_blocks() == old(self).spec_blocks(),
    {
        self.collector.unpin(guard)
    }

    /// An unprotected guard: destruction under it is never deferred.
    pub fn unprotected(&self) -> (g: EpochGuard)
        ensures
            g.is_unprotected(),
            g.spec_epoch() == self.spec_collector().spec_global(),
    {
        self.collector.unprotected()
    }

    /// Advances the global epoch by one when every pinned participant holds it.
    pub fn try_advance(&mut self) -> (advanced: bool)
        requires
            old(self).wf(),
        ensures
            final(self).wf(),
            advanced == (old(self).spec_collector().spec_global() < u64::MAX && forall|i: int|
                0 <= i < old(self).spec_collector().spec_locals().len() && (#[trigger] old(
                    self,
                ).spec_collector().spec_locals()[i]).pinned ==> old(
                    self,
                ).spec_collector().spec_locals()[i].epoch == old(
                    self,
                ).spec_collector().spec_global()),
            final(self).spec_collector().spec_global() == if advanced {
                (old(self).spec_collector().spec_global() + 1) as u64
            } else {
                old(self).spec_collector().spec_global()
            },
            final(self).spec_collector().spec_locals() == old(self).spec_collector().spec_locals(),
            final(self).spec_collector().spec_bag() == old(self).spec_collector().spec_bag(),
            final(self).spec_blocks() == old(self).spec_blocks(),
    {
        self.collector.try_advance()
    }

    /// Adds one strong handle to the block that `w` points to, while its object is
    /// there; a count that had reached zero gets a second unit (resurrection).
    pub fn increment_strong(&mut self, w: Raw<T>)
        requires
            old(self).wf(),
            old(self).holds(w@) ==> old(self).block(w@).spec_strong() + 2 <= u32::MAX,
        ensures
            increment_post(*old(self), *final(self), w@),
    {
        match self.index_of(w) {
            Some(i) => {
                if self.blocks[i].is_live() {
                    self.blocks[i].increment_strong();
                }
            },
            None => {},
        }
    }

    /// Adds `n` weak handles to the block that `w` points to, while its object is
    /// there.
    pub fn increment_weak(&mut self, w: Raw<T>, n: u32)
        requires
            old(self).wf(),
            old(self).holds(w@) ==> old(self).block(w@).spec_weak() + n <= u32::MAX,
        ensures
            final(self).wf(),
            final(self).spec_collector() == old(self).spec_collector(),
            if old(self).holds(w@) && old(self).block(w@).spec_data() is Some {
                weak_set(
                    old(self).spec_blocks(),
                    final(self).spec_blocks(),
                    block_of(w@),
                    (old(self).block(w@).spec_weak() + n) as nat,
                )
            } else {
                final(self).spec_blocks() == old(self).spec_blocks()
            },
    {
        match self.index_of(w) {
            Some(i) => {
                if self.blocks[i].is_live() {
                    self.blocks[i].increment_weak(n);
                }
            },
            None => {},
        }
    }

    /// Every block index in `work` names a block whose strong count is zero.
    pub open spec fn pending_zero(&self, work: Seq<usize>) -> bool {
        forall|k: int|
            0 <= k < work.len() ==> #[trigger] work[k] < self.spec_blocks().len()
                && self.spec_blocks()[work[k] as int].spec_strong() == 0
    }

    /// Gives back the strong unit that edge `e` held. When that was the target's
    /// last unit, the target's destruction epoch is set to the global epoch, and the
    /// target is either queued on `work` for destruction at once or deferred.
    fn release_edge(&mut self, e: Raw<T>, guard: &EpochGuard, work: &mut Vec<usize>)
        requires
            old(self).wf(),
            old(self).pending_zero(old(work)@),
        ensures
            final(self).wf(),
            final(self).pending_zero(final(work)@),
            released(old(self).spec_blocks(), final(self).spec_blocks()),
            deferred_more(old(self).spec_collector(), final(self).spec_collector()),
            2 * live_count(final(self).spec_blocks()) + final(work)@.len() <= 2 * live_count(
                old(self).spec_blocks(),
            ) + old(work)@.len(),
            if old(self).holds(e@) && old(self).block(e@).spec_strong() > 0 {
                let t = block_of(e@);
                let global = old(self).spec_collector().spec_global();
                if old(self).block(e@).spec_strong() == 1 {
                    &&& strong_set(old(self).spec_blocks(), final(self).spec_blocks(), t, 0, global)
                    &&& if destroy_inline(*guard, e@) {
                        &&& final(work)@ == old(work)@.push(t as usize)
                        &&& final(self).spec_collector() == old(self).spec_collector()
                    } else {
                        &&& final(work)@ == old(work)@
                        &&& final(self).spec_collector().spec_bag() == old(
                            self,
                        ).spec_collector().spec_bag().push(Deferred { block: t as usize, epoch: global })
                    }
                } else {
                    &&& strong_set(
                        old(self).spec_blocks(),
                        final(self).spec_blocks(),
                        t,
                        (old(self).block(e@).spec_strong() - 1) as nat,
                        old(self).block(e@).spec_destruct_epoch(),
                    )
                    &&& final(work)@ == old(work)@
                    &&& final(self).spec_collector() == old(self).spec_collector()
                }
            } else {
                &&& final(self).spec_blocks() == old(self).spec_blocks()
                &&& final(self).spec_collector() == old(self).spec_collector()
                &&& final(work)@ == old(work)@
            },
    {
        proof {
            lemma_deferred_more_refl(self.spec_collector());
        }
        let t = match self.index_of(e) {
            Some(t) => t,
            None => {
                return ;
            },
        };
        if self.blocks[t].strong() == 0 {
            return ;
        }
        let ghost before = self.blocks@;
        let zero = self.blocks[t].decrement_strong(1);
        proof {
            assert(self.blocks@ =~= before.update(t as int, self.blocks@[t as int]));
            lemma_live_count_update(before, t as int, self.blocks@[t as int]);
        }
        if zero {
            let ghost mid = self.blocks@;
            let global = self.collector.global_epoch();
            self.blocks[t].set_destruct_epoch(global);
            proof {
                assert(self.blocks@ =~= mid.update(t as int, self.blocks@[t as int]));
                lemma_live_count_update(mid, t as int, self.blocks@[t as int]);
                assert(self.blocks@ =~= before.update(t as int, self.blocks@[t as int]));
            }
            let stamp = e.high_tag();
            let age = epoch_distance(guard.epoch(), stamp);
            if guard.unprotected() || (2 <= age && age < HIGH_TAG_LIMIT / 2) {
                work.push(t);
            } else {
                self.collector.defer(t);
                proof {
                    assert(self.spec_collector().spec_bag().take(
                        old(self).spec_collector().spec_bag().len() as int,
                    ) =~= old(self).spec_collector().spec_bag());
                }
            }
        }
        proof {
            assert forall|j: int| 0 <= j < before.len() implies released_block(
                before[j],
                #[trigger] self.blocks@[j],
            ) by {
                if j != t {
                    assert(self.blocks@[j] == before[j]);
                }
            }
        }
    }

    /// Destroys block `i`, whose strong count is zero: drops its object after
    /// taking the object's edges, and gives back the weak ticket of its strong
    /// handles. Each edge gives back its unit; a target that loses its last unit
    /// is destroyed in the same loop when its stamp allows (see
    /// [`destroy_inline`]), and deferred otherwise. The loop keeps the targets on
    /// a work list, so a chain of any length is destroyed without recursion, and
    /// every block that loses its last unit during the call ends disposed or
    /// deferred (see [`settled`]).
    fn dispose(&mut self, i: usize, guard: &EpochGuard)
        requires
            old(self).wf(),
            i < old(self).spec_blocks().len(),
            old(self).spec_blocks()[i as int].spec_strong() == 0,
        ensures
            final(self).wf(),
            released(old(self).spec_blocks(), final(self).spec_blocks()),
            deferred_more(old(self).spec_collector(), final(self).spec_collector()),
            final(self).spec_blocks()[i as int].spec_data() is None,
            guard.is_unprotected() ==> final(self).spec_collector() == old(self).spec_collector(),
            settled(
                old(self).spec_blocks(),
                old(self).spec_collector().spec_bag().len() as int,
                old(self).spec_collector().spec_global(),
                *final(self),
                Seq::<usize>::empty(),
            ),
    {
        let mut work: Vec<usize> = Vec::new();
        work.push(i);
        proof {
            lemma_deferred_more_refl(self.spec_collector());
        }
        let ghost b0 = self.spec_blocks();
        let ghost bag_len = self.spec_collector().spec_bag().len() as int;
        let ghost global = self.spec_collector().spec_global();
        while work.len() > 0
            invariant
                self.wf(),
                self.pending_zero(work@),
                released(old(self).spec_blocks(), self.spec_blocks()),
                deferred_more(old(self).spec_collector(), self.spec_collector()),
                i < self.spec_blocks().len(),
                self.spec_blocks()[i as int].spec_data() is None || (work@.len() > 0 && work@[0]
                    == i),
                guard.is_unprotected() ==> self.spec_collector() == old(self).spec_collector(),
                b0 == old(self).spec_blocks(),
                bag_len == old(self).spec_collector().spec_bag().len() as int,
                global == old(self).spec_collector().spec_global(),
                settled(b0, bag_len, global, *self, work@),
            decreases 2 * live_count(self.spec_blocks()) + work@.len(),
        {
            let ghost s1: Domain<T> = *self;
            let ghost work0 = work@;
            let b = work.pop().unwrap();
            assert(work0[work0.len() - 1] == b);
            let ghost measure = 2 * live_count(self.spec_blocks()) + work@.len();
            let ghost before = self.blocks@;
            let ghost c_before = self.collector;
            let taken = self.blocks[b].dispose();
            match taken {
                None => {
                    proof {
                        assert(self.blocks@ =~= before.update(b as int, self.blocks@[b as int]));
                        lemma_live_count_update(before, b as int, self.blocks@[b as int]);
                        assert forall|j: int| 0 <= j < before.len() implies released_block(
                            before[j],
                            #[trigger] self.blocks@[j],
                        ) by {
                            if j != b {
                                assert(self.blocks@[j] == before[j]);
                            }
                        }
                        lemma_released_trans(old(self).spec_blocks(), before, self.blocks@);
                        assert(work0 =~= work@.push(b));
                        self.lemma_pop_settled(s1, work0, work@, b, b0, bag_len, global);
                    }
                },
                Some(obj) => {
                    let mut obj = obj;
                    self.blocks[b].decrement_weak();
                    proof {
                        assert(self.blocks@ =~= before.update(b as int, self.blocks@[b as int]));
                        lemma_live_count_update(before, b as int, self.blocks@[b as int]);
                        assert forall|j: int| 0 <= j < before.len() implies released_block(
                            before[j],
                            #[trigger] self.blocks@[j],
                        ) by {
                            if j != b {
                                assert(self.blocks@[j] == before[j]);
                            }
                        }
                        lemma_released_trans(old(self).spec_blocks(), before, self.blocks@);
                        assert(work0 =~= work@.push(b));
                        self.lemma_pop_settled(s1, work0, work@, b, b0, bag_len, global);
                    }
                    let mut taker = EdgeTaker::new();
                    obj.pop_edges(&mut taker);
                    let edges = taker.into_edges();
                    let mut k: usize = 0;
                    while k < edges.len()
                        invariant
                            self.wf(),
                            self.pending_zero(work@),
                            released(old(self).spec_blocks(), self.spec_blocks()),
                            deferred_more(old(self).spec_collector(), self.spec_collector()),
                            i < self.spec_blocks().len(),
                            self.spec_blocks()[i as int].spec_data() is None || (work@.len() > 0
                                && work@[0] == i),
                            2 * live_count(self.spec_blocks()) + work@.len() <= measure,
                            k <= edges.len(),
                            guard.is_unprotected() ==> self.spec_collector() == old(
                                self,
                            ).spec_collector(),
                            b0 == old(self).spec_blocks(),
                            bag_len == old(self).spec_collector().spec_bag().len() as int,
                            global == old(self).spec_collector().spec_global(),
                            settled(b0, bag_len, global, *self, work@),
                        decreases edges.len() - k,
                    {
                        let ghost b1 = self.spec_blocks();
                        let ghost c1 = self.spec_collector();
                        let ghost e1: Domain<T> = *self;
                        let ghost w1 = work@;
                        self.release_edge(edges[k], guard, &mut work);
                        proof {
                            lemma_edge_settled(e1, *self, w1, work@, edges@[k as int]@, *guard, b0, bag_len, global);
                            lemma_released_trans(old(self).spec_blocks(), b1, self.spec_blocks());
                            lemma_deferred_more_trans(
                                old(self).spec_collector(),
                                c1,
                                self.spec_collector(),
                            );
                        }
                        k = k + 1;
                    }
                },
            }
        }
    }

    proof fn lemma_pop_settled(
        &self,
        s1: Domain<T>,
        work0: Seq<usize>,
        work: Seq<usize>,
        b: usize,
        b0: Seq<RcInner<T>>,
        bag_len: int,
        global: u64,
    )
        requires
            settled(b0, bag_len, global, s1, work0),
            s1.wf(),
            0 <= bag_len <= s1.spec_collector().spec_bag().len(),
            b0.len() == s1.spec_blocks().len(),
            work0 == work.push(b),
            b < s1.spec_blocks().len(),
            self.spec_collector() == s1.spec_collector(),
            released(s1.spec_blocks(), self.spec_blocks()),
            self.spec_blocks()[b as int].spec_data() is None,
            forall|j: int|
                0 <= j < s1.spec_blocks().len() ==> (#[trigger] self.spec_blocks()[j]).spec_strong()
                    == s1.spec_blocks()[j].spec_strong(),
        ensures
            settled(b0, bag_len, global, *self, work),
    {
        lemma_deferred_more_refl(s1.spec_collector());
        assert forall|x: usize| work0.contains(x) && x < b0.len() implies work.contains(x)
            || self.spec_blocks()[x as int].spec_data() is None by {
            let n = choose|n: int| 0 <= n < work0.len() && work0[n] == x;
            if n < work.len() {
                assert(work[n] == x);
            }
        }
        lemma_settled_step(b0, bag_len, global, s1, work0, *self, work);
    }

    /// Gives back `n` strong units of block `i`. When that brings the count to
    /// zero, the destruction epoch is set to the global epoch and the block's
    /// destruction is deferred; under an unprotected guard it runs at once.
    fn release(&mut self, i: usize, n: u32, guard: &EpochGuard)
        requires
            old(self).wf(),
            i < old(self).spec_blocks().len(),
            1 <= n <= old(self).spec_blocks()[i as int].spec_strong(),
        ensures
            final(self).wf(),
            released(old(self).spec_blocks(), final(self).spec_blocks()),
            deferred_more(old(self).spec_collector(), final(self).spec_collector()),
            ({
                let blk = old(self).spec_blocks()[i as int];
                let global = old(self).spec_collector().spec_global();
                if blk.spec_strong() == n {
                    if guard.is_unprotected() {
                        &&& final(self).spec_blocks()[i as int].spec_strong() == 0
                        &&& final(self).spec_blocks()[i as int].spec_data() is None
                        &&& final(self).spec_collector() == old(self).spec_collector()
                    } else {
                        &&& strong_set(old(self).spec_blocks(), final(self).spec_blocks(), i as int, 0, global)
                        &&& final(self).spec_collector().spec_bag() == old(
                            self,
                        ).spec_collector().spec_bag().push(Deferred { block: i, epoch: global })
                    }
                } else {
                    &&& strong_set(
                        old(self).spec_blocks(),
                        final(self).spec_blocks(),
                        i as int,
                        (blk.spec_strong() - n) as nat,
                        blk.spec_destruct_epoch(),
                    )
                    &&& final(self).spec_collector() == old(self).spec_collector()
                }
            }),
            settled(
                old(self).spec_blocks(),
                old(self).spec_collector().spec_bag().len() as int,
                old(self).spec_collector().spec_global(),
                *final(self),
                Seq::<usize>::empty(),
            ),
    {
        let ghost before = self.blocks@;
        let zero = self.blocks[i].decrement_strong(n);
        proof {
            lemma_deferred_more_refl(self.spec_collector());
        }
        if zero {
            let global = self.collector.global_epoch();
            self.blocks[i].set_destruct_epoch(global);
        }
        proof {
            assert forall|j: int| 0 <= j < before.len() implies released_block(
                before[j],
                #[trigger] self.blocks@[j],
            ) by {
                if j != i {
                    assert(self.blocks@[j] == before[j]);
                }
            }
        }
        if zero {
            if guard.unprotected() {
                let ghost b1 = self.spec_blocks();
                let ghost c1 = self.spec_collector();
                self.dispose(i, guard);
                proof {
                    lemma_released_trans(old(self).spec_blocks(), b1, self.spec_blocks());
                    lemma_deferred_more_trans(old(self).spec_collector(), c1, self.spec_collector());
                    let b0 = old(self).spec_blocks();
                    assert forall|j: int|
                        0 <= j < b0.len() && b0[j].spec_strong() > 0 && (
                        #[trigger] self.spec_blocks()[j]).spec_strong() == 0 implies {
                        ||| self.spec_blocks()[j].spec_data() is None
                        ||| Seq::<usize>::empty().contains(j as usize)
                        ||| deferred_at(
                            self.spec_collector(),
                            old(self).spec_collector().spec_bag().len() as int,
                            j,
                            old(self).spec_collector().spec_global(),
                        )
                    } by {
                        if j != i {
                            assert(b1[j] == b0[j]);
                        }
                    }
                }
            } else {
                self.collector.defer(i);
                proof {
                    assert(self.spec_collector().spec_bag().take(
                        old(self).spec_collector().spec_bag().len() as int,
                    ) =~= old(self).spec_collector().spec_bag());
                    let n0 = old(self).spec_collector().spec_bag().len() as int;
                    assert(self.spec_collector().spec_bag()[n0] == Deferred {
                        block: i,
                        epoch: old(self).spec_collector().spec_global(),
                    });
                    assert forall|j: int|
                        0 <= j < before.len() && j != i implies #[trigger] self.spec_blocks()[j]
                        == before[j] by {}
                }
            }
        } else {
            proof {
                assert forall|j: int|
                    0 <= j < before.len() && j != i implies #[trigger] self.spec_blocks()[j]
                    == before[j] by {}
            }
        }
    }

    /// Gives back `n` strong units of the block that `w` points to. Nothing
    /// happens when `w` points to no block of this domain, when `n` is zero, or when
    /// the block holds fewer than `n` units.
    pub fn decrement_strong(&mut self, w: Raw<T>, n: u32, guard: &EpochGuard)
        requires
            old(self).wf(),
        ensures
            decrement_post(*old(self), *final(self), w@, n, *guard),
    {
        proof {
            lemma_deferred_more_refl(self.spec_collector());
        }
        match self.index_of(w) {
            Some(i) => {
                if n >= 1 && n <= self.blocks[i].strong() {
                    self.release(i, n, guard);
                }
            },
            None => {},
        }
    }

    /// Runs a deferred destruction of block `i`: when its strong count is still
    /// zero the block is destroyed; when it was resurrected meanwhile, the extra
    /// unit of the resurrection is given back instead.
    fn try_zero(&mut self, i: usize, guard: &EpochGuard)
        requires
            old(self).wf(),
            i < old(self).spec_blocks().len(),
        ensures
            final(self).wf(),
            released(old(self).spec_blocks(), final(self).spec_blocks()),
            deferred_more(old(self).spec_collector(), final(self).spec_collector()),
            old(self).spec_blocks()[i as int].spec_strong() == 0
                ==> final(self).spec_blocks()[i as int].spec_data() is None,
            old(self).spec_blocks()[i as int].spec_strong() > 0
                ==> final(self).spec_blocks()[i as int].spec_strong() == old(
                self,
            ).spec_blocks()[i as int].spec_strong() - 1,
            old(self).spec_blocks()[i as int].spec_strong() == 1 && guard.is_unprotected()
                ==> final(self).spec_blocks()[i as int].spec_data() is None,
            old(self).spec_blocks()[i as int].spec_strong() == 1 && !guard.is_unprotected() ==> {
                &&& strong_set(
                    old(self).spec_blocks(),
                    final(self).spec_blocks(),
                    i as int,
                    0,
                    old(self).spec_collector().spec_global(),
                )
                &&& final(self).spec_collector().spec_bag() == old(
                    self,
                ).spec_collector().spec_bag().push(
                    Deferred { block: i, epoch: old(self).spec_collector().spec_global() },
                )
            },
            settled(
                old(self).spec_blocks(),
                old(self).spec_collector().spec_bag().len() as int,
                old(self).spec_collector().spec_global(),
                *final(self),
                Seq::<usize>::empty(),
            ),
            old(self).spec_blocks()[i as int].spec_strong() > 1 ==> {
                &&& strong_set(
                    old(self).spec_blocks(),
                    final(self).spec_blocks(),
                    i as int,
                    (old(self).spec_blocks()[i as int].spec_strong() - 1) as nat,
                    old(self).spec_blocks()[i as int].spec_destruct_epoch(),
                )
                &&& final(self).spec_collector() == old(self).spec_collector()
            },
    {
        if self.blocks[i].strong() == 0 {
            self.dispose(i, guard);
        } else {
            self.release(i, 1, guard);
        }
    }

    /// Runs the deferred destructions that have expired; the others stay, in their
    /// order, ahead of any destruction that the run defers anew. Every item run has
    /// an epoch older than that of every pinned participant.
    pub fn collect(&mut self, guard: &EpochGuard)
        requires
            old(self).wf(),
        ensures
            collect_post(*old(self), *final(self)),
    {
        proof {
            let c0 = self.spec_collector();
            assert forall|k: int, p: int|
                0 <= k < c0.spec_bag().len() && expired(#[trigger] c0.spec_bag()[k], c0.spec_global())
                    && 0 <= p < c0.spec_locals().len() && (#[trigger] c0.spec_locals()[p]).pinned
                    implies c0.spec_bag()[k].epoch < c0.spec_locals()[p].epoch by {
                lemma_expired_unobserved(&c0, c0.spec_bag()[k]);
            }
        }
        let ghost c0 = self.spec_collector();
        let items = self.collector.take_expired();
        let ghost c_after = self.spec_collector();
        proof {
            let f = |d: Deferred| !expired(d, c0.spec_global());
            assert forall|j: int| 0 <= j < c_after.spec_bag().len() implies (
            #[trigger] c_after.spec_bag()[j]).block < self.spec_blocks().len() by {
                let d = c_after.spec_bag()[j];
                assert(c0.spec_bag().filter(f).contains(d));
                c0.spec_bag().lemma_filter_contains_rev(f, d);
            }
            lemma_deferred_more_refl(self.spec_collector());
        }
        let mut k: usize = 0;
        while k < items.len()
            invariant
                self.wf(),
                released(old(self).spec_blocks(), self.spec_blocks()),
                deferred_more(c_after, self.spec_collector()),
                k <= items.len(),
                forall|j: int|
                    0 <= j < k && (#[trigger] items@[j]).block < old(self).spec_blocks().len()
                        && old(self).spec_blocks()[items@[j].block as int].spec_strong() == 0
                        ==> self.spec_blocks()[items@[j].block as int].spec_data() is None,
                forall|j: int|
                    0 <= j < k && (#[trigger] items@[j]).block < old(self).spec_blocks().len()
                        && old(self).spec_blocks()[items@[j].block as int].spec_strong() > 0
                        ==> self.spec_blocks()[items@[j].block as int].spec_strong() < old(
                        self,
                    ).spec_blocks()[items@[j].block as int].spec_strong(),
                settled(
                    old(self).spec_blocks(),
                    c_after.spec_bag().len() as int,
                    c0.spec_global(),
                    *self,
                    Seq::<usize>::empty(),
                ),
                c_after.spec_global() == c0.spec_global(),
                c_after.spec_bag().len() <= self.spec_collector().spec_bag().len(),
            decreases items.len() - k,
        {
            let d = items[k];
            if d.block < self.blocks.len() {
                let ghost b1 = self.spec_blocks();
                let ghost c1 = self.spec_collector();
                let ghost s1: Domain<T> = *self;
                self.try_zero(d.block, guard);
                proof {
                    lemma_released_trans(old(self).spec_blocks(), b1, self.spec_blocks());
                    lemma_deferred_more_trans(c_after, c1, self.spec_collector());
                    let l0 = c_after.spec_bag().len() as int;
                    assert forall|j: int|
                        0 <= j < b1.len() && b1[j].spec_strong() > 0 && (
                        #[trigger] self.spec_blocks()[j]).spec_strong() == 0 implies {
                        ||| self.spec_blocks()[j].spec_data() is None
                        ||| Seq::<usize>::empty().contains(j as usize)
                        ||| deferred_at(self.spec_collector(), l0, j, c0.spec_global())
                    } by {
                        if self.spec_blocks()[j].spec_data() is Some {
                            lemma_deferred_at_from(
                                self.spec_collector(),
                                c1.spec_bag().len() as int,
                                l0,
                                j,
                                c0.spec_global(),
                            );
                        }
                    }
                    lemma_settled_step(
                        old(self).spec_blocks(),
                        l0,
                        c0.spec_global(),
                        s1,
                        Seq::<usize>::empty(),
                        *self,
                        Seq::<usize>::empty(),
                    );
                    assert forall|j: int|
                        0 <= j < k + 1 && (#[trigger] items@[j]).block < old(self).spec_blocks().len()
                            && old(self).spec_blocks()[items@[j].block as int].spec_strong() > 0
                            implies self.spec_blocks()[items@[j].block as int].spec_strong() < old(
                        self,
                    ).spec_blocks()[items@[j].block as int].spec_strong() by {
                        let bb = items@[j].block as int;
                        assert(released_block(b1[bb], self.spec_blocks()[bb]));
                        assert(released_block(old(self).spec_blocks()[bb], b1[bb]));
                    }
                }
            }
            k = k + 1;
        }
        proof {
            let f = |d: Deferred| expired(d, c0.spec_global());
            assert forall|k: int|
                0 <= k < c0.spec_bag().len() && expired(#[trigger] c0.spec_bag()[k], c0.spec_global())
                    && old(self).spec_blocks()[c0.spec_bag()[k].block as int].spec_strong() == 0
                    implies self.spec_blocks()[c0.spec_bag()[k].block as int].spec_data() is None by {
                c0.spec_bag().lemma_filter_contains(f, k);
                let j = choose|j: int| 0 <= j < items@.len() && items@[j] == c0.spec_bag()[k];
                assert(items@[j] == c0.spec_bag()[k]);
            }
            assert forall|k: int|
                0 <= k < c0.spec_bag().len() && expired(#[trigger] c0.spec_bag()[k], c0.spec_global())
                    && old(self).spec_blocks()[c0.spec_bag()[k].block as int].spec_strong() > 0
                    implies self.spec_blocks()[c0.spec_bag()[k].block as int].spec_strong() < old(
                self,
            ).spec_blocks()[c0.spec_bag()[k].block as int].spec_strong() by {
                c0.spec_bag().lemma_filter_contains(f, k);
                let j = choose|j: int| 0 <= j < items@.len() && items@[j] == c0.spec_bag()[k];
                assert(items@[j] == c0.spec_bag()[k]);
            }
        }
    }

    /// Releases `guard`'s pin, tries to advance the global epoch, pins again and
    /// runs the deferred destructions that have expired. An unprotected guard, or
    /// one whose participant is unknown, is left alone.
    pub fn repin(&mut self, guard: &mut EpochGuard)
        requires
            old(self).wf(),
        ensures
            final(self).wf(),
            released(old(self).spec_blocks(), final(self).spec_blocks()),
            final(guard).spec_local() == old(guard).spec_local(),
            old(guard).spec_local() < old(self).spec_collector().spec_locals().len() ==> {
                let l = old(guard).spec_local() as int;
                let c = old(self).spec_collector();
                let unpinned = c.spec_locals().update(
                    l,
                    Local { pinned: false, epoch: c.spec_locals()[l].epoch },
                );
                let g1 = repin_epoch(c.spec_global(), unpinned);
                &&& final(guard).spec_epoch() == g1
                &&& exists|mid: Domain<T>|
                    {
                        &&& mid.wf()
                        &&& mid.spec_blocks() == old(self).spec_blocks()
                        &&& mid.spec_collector().spec_bag() == c.spec_bag()
                        &&& mid.spec_collector().spec_global() == g1
                        &&& mid.spec_collector().spec_locals() == unpinned.update(
                            l,
                            Local { pinned: true, epoch: g1 },
                        )
                        &&& #[trigger] collect_post(mid, *final(self))
                    }
            },
            old(guard).spec_local() >= old(self).spec_collector().spec_locals().len() ==> {
                &&& final(self).spec_blocks() == old(self).spec_blocks()
                &&& final(self).spec_collector() == old(self).spec_collector()
                &&& *final(guard) == *old(guard)
            },
    {
        let l = guard.local();
        if l < self.collector.locals_len() {
            self.collector.unpin_local(l);
            self.collector.try_advance();
            *guard = self.collector.pin(l);
            let ghost mid: Domain<T> = *self;
            self.collect(guard);
            proof {
                assert(collect_post(mid, *self));
            }
        }
    }

    /// Returns the strong count of the block that `w` points to; zero when it
    /// points to no block of this domain.
    pub fn strong_count(&self, w: Raw<T>) -> (r: u32)
        requires
            self.wf(),
        ensures
            r == if self.holds(w@) {
                self.block(w@).spec_strong()
            } else {
                0
            },
    {
        match self.index_of(w) {
            Some(i) => {
                self.blocks[i].strong()
            },
            None => 0,
        }
    }

    /// Returns the weak count of the block that `w` points to; zero when it points
    /// to no block of this domain.
    pub fn weak_count(&self, w: Raw<T>) -> (r: u32)
        requires
            self.wf(),
        ensures
            r == if self.holds(w@) {
                self.block(w@).spec_weak()
            } else {
                0
            },
    {
        match self.index_of(w) {
            Some(i) => {
                self.blocks[i].weak()
            },
            None => 0,
        }
    }

    /// Returns the destruction epoch of the block that `w` points to; zero when it
    /// points to no block of this domain.
    pub fn destruct_epoch(&self, w: Raw<T>) -> (r: u64)
        requires
            self.wf(),
        ensures
            r == if self.holds(w@) {
                self.block(w@).spec_destruct_epoch()
            } else {
                0
            },
    {
        match self.index_of(w) {
            Some(i) => {
                self.blocks[i].destruct_epoch()
            },
            None => 0,
        }
    }

    /// Returns `true` when `w` points to a block of this domain whose object has
    /// been dropped.
    pub fn is_disposed(&self, w: Raw<T>) -> (r: bool)
        requires
            self.wf(),
        ensures
            r == (self.holds(w@) && self.block(w@).spec_data() is None),
    {
        match self.index_of(w) {
            Some(i) => {
                !self.blocks[i].is_live()
            },
            None => false,
        }
    }

    /// Returns `true` when `w` points to a block of this domain that is free.
    pub fn is_freed(&self, w: Raw<T>) -> (r: bool)
        requires
            self.wf(),
        ensures
            r == (self.holds(w@) && self.block(w@).is_freed()),
    {
        match self.index_of(w) {
            Some(i) => {
                self.blocks[i].weak() == 0
            },
            None => false,
        }
    }

    /// Returns the object that `w` points to, unless it is null, foreign or
    /// disposed.
    pub fn get(&self, w: Raw<T>) -> (r: Option<&T>)
        requires
            self.wf(),
        ensures
            r == if self.holds(w@) {
                match self.block(w@).spec_data() {
                    Some(x) => Some(&x),
                    None => None::<&T>,
                }
            } else {
                None::<&T>
            },
    {
        match self.index_of(w) {
            Some(i) => {
                self.blocks[i].get()
            },
            None => None,
        }
    }

    /// Adds a strong handle to the block that `w` points to if it still has one;
    /// returns whether it did.
    pub fn try_increment_strong(&mut self, w: Raw<T>) -> (r: bool)
        requires
            old(self).wf(),
            old(self).holds(w@) ==> old(self).block(w@).spec_strong() + 2 <= u32::MAX,
        ensures
            final(self).wf(),
            final(self).spec_collector() == old(self).spec_collector(),
            r == (old(self).holds(w@) && old(self).block(w@).spec_strong() > 0),
            if r {
                strong_set(
                    old(self).spec_blocks(),
                    final(self).spec_blocks(),
                    block_of(w@),
                    old(self).block(w@).spec_strong() + 1,
                    old(self).block(w@).spec_destruct_epoch(),
                )
            } else {
                final(self).spec_blocks() == old(self).spec_blocks()
            },
    {
        match self.index_of(w) {
            Some(i) => {
                if self.blocks[i].strong() > 0 {
                    self.blocks[i].increment_strong();
                    true
                } else {
                    false
                }
            },
            None => false,
        }
    }

    /// Gives back one weak unit of the block that `w` points to; the block is free
    /// once none is left. The ticket that the strong handles share is never given
    /// back here: nothing happens when the only unit left is that ticket, or when
    /// `w` points to no block of this domain.
    pub fn decrement_weak(&mut self, w: Raw<T>)
        requires
            old(self).wf(),
        ensures
            final(self).wf(),
            final(self).spec_collector() == old(self).spec_collector(),
            weak_release_post(*old(self), *final(self), w@),
    {
        match self.index_of(w) {
            Some(i) => {
                let floor: u32 = if self.blocks[i].is_live() {
                    1
                } else {
                    0
                };
                if self.blocks[i].weak() > floor {
                    self.blocks[i].decrement_weak();
                }
            },
            None => {},
        }
    }

    /// Returns `true` when `w` points to a block of this domain whose object is
    /// still there.
    pub fn is_live_at(&self, w: Raw<T>) -> (r: bool)
        requires
            self.wf(),
        ensures
            r == (self.holds(w@) && self.block(w@).spec_data() is Some),
    {
        match self.index_of(w) {
            Some(i) => {
                self.blocks[i].is_live()
            },
            None => false,
        }
    }

    /// Returns the object that `w` points to for mutation, unless it is null,
    /// foreign or disposed; the counts do not change.
    pub fn get_mut(&mut self, w: Raw<T>) -> (r: Option<&mut T>)
        requires
            old(self).wf(),
        ensures
            r is Some == (old(self).holds(w@) && old(self).block(w@).spec_data() is Some),
            r is Some ==> old(self).block(w@).spec_data() == Some(*r->Some_0),
            counts_kept(*old(self), *final(self)),
            final(self).wf(),
    {
        match self.index_of(w) {
            Some(i) => {
                if self.blocks[i].is_live() {
                    Some(self.blocks[i].data_mut())
                } else {
                    None
                }
            },
            None => None,
        }
    }

    /// Returns the block that `w` points to, which must be one of this domain's.
    pub fn block_at(&self, w: Raw<T>) -> (r: &RcInner<T>)
        requires
            self.wf(),
            self.holds(w@),
        ensures
            *r == self.block(w@),
    {
        let i = self.index_of(w).unwrap();
        &self.blocks[i]
    }
}

} // verus!
