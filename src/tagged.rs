//! Tagged words: an aligned address with a user tag in its low bits and an
//! epoch stamp in its top sixteen bits.
use core::marker::PhantomData;
use vstd::prelude::*;
use vstd::std_specs::bits::u64_trailing_zeros;
use vstd::layout::align_of;

verus! {

/// Position of the epoch stamp in a word.
pub const HIGH_TAG_SHIFT: u64 = 48;

/// The bits of a word that hold the epoch stamp.
pub const HIGH_TAG_MASK: u64 = 0xffff_0000_0000_0000;

/// The epoch stamp keeps an epoch modulo this value.
pub const HIGH_TAG_LIMIT: u64 = 0x1_0000;

/// At most this many low bits carry a user tag, whatever the alignment.
pub const MAX_LOW_TAG_BITS: u32 = 16;

/// Number of low bits that an aligned pointer to `T` leaves unused.
pub open spec fn tag_width<T>() -> u32 {
    let tz = u64_trailing_zeros(align_of::<T>() as u64);
    if tz > MAX_LOW_TAG_BITS {
        MAX_LOW_TAG_BITS
    } else {
        tz
    }
}

/// Mask of the low bits that carry the user tag of a pointer to `T`.
pub open spec fn low_mask<T>() -> u64 {
    ((1u64 << tag_width::<T>()) - 1) as u64
}

/// The user tag of word `w`.
pub open spec fn tag_of<T>(w: u64) -> u64 {
    w & low_mask::<T>()
}

/// The address of word `w`, with both tag regions cleared.
pub open spec fn raw_of<T>(w: u64) -> u64 {
    w & !low_mask::<T>() & !HIGH_TAG_MASK
}

/// The epoch stamp of word `w`.
pub open spec fn high_tag_of(w: u64) -> u64 {
    (w >> HIGH_TAG_SHIFT) as u64
}

/// Word `w` with its user tag replaced by `t`, truncated to the tag bits.
pub open spec fn with_tag_of<T>(w: u64, t: u64) -> u64 {
    (w & !low_mask::<T>()) | (t & low_mask::<T>())
}

/// Word `w` with its epoch stamp replaced by `e` modulo the stamp's range.
pub open spec fn with_high_tag_of(w: u64, e: u64) -> u64 {
    (w & !HIGH_TAG_MASK) | (((e % HIGH_TAG_LIMIT) as u64) << HIGH_TAG_SHIFT)
}

/// The part of a word that clients see: address and user tag, without the stamp.
pub open spec fn visible_of(w: u64) -> u64 {
    w & !HIGH_TAG_MASK
}

proof fn lemma_mask_shape(w: u64)
    requires
        w <= 16,
    ensures
        ((1u64 << w) - 1) as u64 & HIGH_TAG_MASK == 0,
        ((1u64 << w) - 1) as u64 & (((1u64 << w) - 1) as u64 + 1) as u64 == 0,
        (((1u64 << w) - 1) as u64) < 0x1_0000,
{
    assert(((1u64 << w) - 1) as u64 & 0xffff_0000_0000_0000u64 == 0) by (bit_vector)
        requires
            w <= 16,
    ;
    assert(((1u64 << w) - 1) as u64 & (((1u64 << w) - 1) as u64 + 1) as u64 == 0)
        by (bit_vector)
        requires
            w <= 16,
    ;
    assert((((1u64 << w) - 1) as u64) < 0x1_0000) by (bit_vector)
        requires
            w <= 16,
    ;
}

/// The tag mask of any type is a run of at most sixteen low bits.
pub proof fn lemma_low_mask<T>()
    ensures
        low_mask::<T>() & HIGH_TAG_MASK == 0,
        low_mask::<T>() & (low_mask::<T>() + 1) as u64 == 0,
        low_mask::<T>() < 0x1_0000,
{
    lemma_mask_shape(tag_width::<T>() as u64);
}

/// Tagging a word with a value that fits in the tag bits makes that value its tag,
/// and keeps its address and its epoch stamp.
pub proof fn lemma_with_tag_round_trip<T>(w: u64, t: u64)
    requires
        t <= low_mask::<T>(),
    ensures
        tag_of::<T>(with_tag_of::<T>(w, t)) == t,
        raw_of::<T>(with_tag_of::<T>(w, t)) == raw_of::<T>(w),
        high_tag_of(with_tag_of::<T>(w, t)) == high_tag_of(w),
{
    lemma_low_mask::<T>();
    let m = low_mask::<T>();
    assert(((w & !m) | (t & m)) & m == t && ((w & !m) | (t & m)) & !m & !0xffff_0000_0000_0000u64
        == w & !m & !0xffff_0000_0000_0000u64 && (((w & !m) | (t & m)) >> 48u64) == (w >> 48u64))
        by (bit_vector)
        requires
            m & 0xffff_0000_0000_0000u64 == 0,
            m & (m + 1) as u64 == 0,
            t <= m,
    ;
}

/// Stamping a word with an epoch keeps what clients see of it (its address and
/// its user tag) and makes the epoch, modulo the stamp's range, its stamp.
pub proof fn lemma_with_high_tag<T>(w: u64, e: u64)
    ensures
        visible_of(with_high_tag_of(w, e)) == visible_of(w),
        tag_of::<T>(with_high_tag_of(w, e)) == tag_of::<T>(w),
        raw_of::<T>(with_high_tag_of(w, e)) == raw_of::<T>(w),
        high_tag_of(with_high_tag_of(w, e)) == e % HIGH_TAG_LIMIT,
{
    lemma_low_mask::<T>();
    let m = low_mask::<T>();
    let s = e % 0x1_0000;
    assert(((w & !0xffff_0000_0000_0000u64) | (s << 48u64)) & !0xffff_0000_0000_0000u64 == w
        & !0xffff_0000_0000_0000u64 && ((w & !0xffff_0000_0000_0000u64) | (s << 48u64)) & m == w
        & m && ((w & !0xffff_0000_0000_0000u64) | (s << 48u64)) & !m & !0xffff_0000_0000_0000u64
        == w & !m & !0xffff_0000_0000_0000u64 && (((w & !0xffff_0000_0000_0000u64) | (s
        << 48u64)) >> 48u64) == s) by (bit_vector)
        requires
            m & 0xffff_0000_0000_0000u64 == 0,
            s < 0x1_0000,
    ;
}

/// Two words with the same visible part have the same address and user tag.
pub proof fn lemma_visible_determines_tag<T>(a: u64, b: u64)
    requires
        visible_of(a) == visible_of(b),
    ensures
        tag_of::<T>(a) == tag_of::<T>(b),
        raw_of::<T>(a) == raw_of::<T>(b),
{
    lemma_low_mask::<T>();
    let m = low_mask::<T>();
    assert(a & m == b & m && a & !m & !0xffff_0000_0000_0000u64 == b & !m
        & !0xffff_0000_0000_0000u64) by (bit_vector)
        requires
            m & 0xffff_0000_0000_0000u64 == 0,
            a & !0xffff_0000_0000_0000u64 == b & !0xffff_0000_0000_0000u64,
    ;
}

/// Returns a bitmask of the unused least significant bits of an aligned pointer to `T`.
pub fn low_bits<T>() -> (r: u64)
    ensures
        r == low_mask::<T>(),
{
    let tz = (core::mem::align_of::<T>() as u64).trailing_zeros();
    let w = if tz > MAX_LOW_TAG_BITS {
        MAX_LOW_TAG_BITS
    } else {
        tz
    };
    let w = w as u64;
    assert((1u64 << w) >= 1) by (bit_vector)
        requires
            w <= 16,
    ;
    (1u64 << w) - 1
}

/// Returns the word `ptr` with its user tag replaced by `tag`.
pub fn with_tag<T>(ptr: u64, tag: u64) -> (r: u64)
    ensures
        r == with_tag_of::<T>(ptr, tag),
{
    let m = low_bits::<T>();
    (ptr & !m) | (tag & m)
}

/// A pointer word to a `T`: an address, a user tag and an epoch stamp.
pub struct Tagged<T> {
    ptr: u64,
    _marker: PhantomData<T>,
}

impl<T> View for Tagged<T> {
    type V = u64;

    closed spec fn view(&self) -> u64 {
        self.ptr
    }
}

impl<T> Clone for Tagged<T> {
    fn clone(&self) -> (r: Self)
        ensures
            r@ == self@,
    {
        Tagged { ptr: self.ptr, _marker: PhantomData }
    }
}

impl<T> Copy for Tagged<T> {
}

impl<T> PartialEq for Tagged<T> {
    fn eq(&self, other: &Self) -> (r: bool) {
        self.ptr == other.ptr
    }
}

impl<T> vstd::std_specs::cmp::PartialEqSpecImpl for Tagged<T> {
    open spec fn obeys_eq_spec() -> bool {
        true
    }

    open spec fn eq_spec(&self, other: &Self) -> bool {
        self@ == other@
    }
}

impl<T> Default for Tagged<T> {
    fn default() -> (r: Self)
        ensures
            r@ == 0,
    {
        Self::null()
    }
}

impl<T> Tagged<T> {
    /// Wraps the word `ptr`.
    pub fn new(ptr: u64) -> (r: Self)
        ensures
            r@ == ptr,
    {
        Tagged { ptr, _marker: PhantomData }
    }

    /// The null pointer: the word zero.
    pub fn null() -> (r: Self)
        ensures
            r@ == 0,
    {
        Tagged { ptr: 0, _marker: PhantomData }
    }

    /// Returns `true` if the address is null, whatever the tags.
    pub fn is_null(&self) -> (r: bool)
        ensures
            r == (raw_of::<T>(self@) == 0),
    {
        self.as_raw() == 0
    }

    /// Returns the user tag.
    pub fn tag(&self) -> (r: u64)
        ensures
            r == tag_of::<T>(self@),
    {
        self.ptr & low_bits::<T>()
    }

    /// Returns the address, with both tag regions cleared.
    pub fn as_raw(&self) -> (r: u64)
        ensures
            r == raw_of::<T>(self@),
    {
        self.ptr & !low_bits::<T>() & !HIGH_TAG_MASK
    }

    /// Returns the same pointer with the user tag `tag`, truncated to the tag bits.
    pub fn with_tag(&self, tag: u64) -> (r: Self)
        ensures
            r@ == with_tag_of::<T>(self@, tag),
    {
        Self::new(with_tag::<T>(self.ptr, tag))
    }

    /// Returns the epoch stamp.
    pub fn high_tag(&self) -> (r: u64)
        ensures
            r == high_tag_of(self@),
            r < HIGH_TAG_LIMIT,
    {
        let w = self.ptr;
        assert((w >> 48u64) < 0x1_0000) by (bit_vector);
        (self.ptr >> HIGH_TAG_SHIFT) as u64
    }

    /// Returns the same pointer stamped with epoch `epoch`, modulo the stamp's range.
    pub fn with_high_tag(&self, epoch: u64) -> (r: Self)
        ensures
            r@ == with_high_tag_of(self@, epoch),
    {
        let e = (epoch % HIGH_TAG_LIMIT) as u64;
        Self::new((self.ptr & !HIGH_TAG_MASK) | (e << HIGH_TAG_SHIFT))
    }

    /// Returns `true` if the two pointers have the same address and user tag; the
    /// epoch stamps are not compared.
    pub fn ptr_eq(&self, other: Self) -> (r: bool)
        ensures
            r == (visible_of(self@) == visible_of(other@)),
    {
        (self.ptr & !HIGH_TAG_MASK) == (other.ptr & !HIGH_TAG_MASK)
    }
}

} // verus!
