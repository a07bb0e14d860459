use circ::{low_bits, with_tag, AcquiredEBR, Tagged};

#[test]
fn low_bits_follow_alignment() {
    assert_eq!(low_bits::<u8>(), 0);
    assert_eq!(low_bits::<u16>(), 1);
    assert_eq!(low_bits::<u32>(), 3);
    assert_eq!(low_bits::<u64>(), 7);
}

#[test]
fn with_tag_sets_the_tag_and_keeps_the_address() {
    let p: Tagged<u64> = Tagged::new(0x1_0000);
    for t in 0..8u64 {
        let q = p.with_tag(t);
        assert_eq!(q.tag(), t);
        assert_eq!(q.as_raw(), p.as_raw());
    }
}

#[test]
fn with_tag_truncates_to_the_tag_bits() {
    let p: Tagged<u64> = Tagged::new(0x2_0000);
    let q = p.with_tag(9);
    assert_eq!(q.tag(), 1);
    assert_eq!(q.as_raw(), 0x2_0000);
    assert_eq!(with_tag::<u64>(0x2_0005, 2), 0x2_0002);
}

#[test]
fn high_tag_is_invisible_to_ptr_eq() {
    let p: Tagged<u64> = Tagged::new(0x3_0000).with_tag(5);
    let q = p.with_high_tag(7);
    assert_eq!(q.high_tag(), 7);
    assert_eq!(q.tag(), 5);
    assert_eq!(q.as_raw(), 0x3_0000);
    assert!(p.ptr_eq(q));
    assert!(q.ptr_eq(p));
    assert!(p != q);
    assert!(!p.ptr_eq(p.with_tag(4)));
    assert_eq!(p.with_high_tag(0x1_0003).high_tag(), 3);
}

#[test]
fn null_is_null_whatever_the_tags() {
    let n: Tagged<u64> = Tagged::null();
    assert!(n.is_null());
    assert!(n.with_tag(3).is_null());
    assert!(n.with_high_tag(9).is_null());
    assert!(!Tagged::<u64>::new(0x1_0000).is_null());
}

#[test]
fn acquired_swap_clear_and_tag() {
    let mut a: AcquiredEBR<u64> = AcquiredEBR::new(Tagged::new(0x1_0000));
    let mut b: AcquiredEBR<u64> = AcquiredEBR::null();
    assert!(b.is_null());
    AcquiredEBR::swap(&mut a, &mut b);
    assert!(a.is_null());
    assert_eq!(b.as_ptr().as_raw(), 0x1_0000);
    b.set_tag(1);
    assert_eq!(b.as_ptr().tag(), 1);
    assert!(!b.eq(&AcquiredEBR::new(Tagged::new(0x1_0000))));
    b.clear();
    assert!(b.is_null());
}
