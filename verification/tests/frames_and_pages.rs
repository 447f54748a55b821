use kernel::mem::paging::{make_address_canonical, Frame, Page};

#[test]
fn frame_containing_address_rounds_down() {
    let frame = Frame::containing_address(0x1234_5678);
    assert_eq!(frame.number(), 0x12345);
    assert_eq!(frame.start_address(), 0x1234_5000);
    assert_eq!(frame.end_address(), 0x1234_6000);
    assert_eq!(frame.start_address(), (0x1234_5678u64 / 4096) * 4096);
}

#[test]
fn frame_zero_and_exact_boundaries() {
    assert_eq!(Frame::containing_address(0).number(), 0);
    assert_eq!(Frame::containing_address(4095).number(), 0);
    assert_eq!(Frame::containing_address(4096).number(), 1);
    assert_eq!(Frame::containing_address(u64::MAX).number(), 0xf_ffff_ffff_ffff);
}

#[test]
fn frames_are_ordered_by_number() {
    assert!(Frame::containing_address(0x1000) < Frame::containing_address(0x2000));
    assert!(Frame::containing_address(0x2fff) == Frame::containing_address(0x2000));
}

#[test]
fn frame_range_is_inclusive() {
    let mut range =
        Frame::range_inclusive(Frame::containing_address(0x3000), Frame::containing_address(0x5000));
    assert_eq!(range.next().map(|f| f.number()), Some(3));
    assert_eq!(range.next().map(|f| f.number()), Some(4));
    assert_eq!(range.next().map(|f| f.number()), Some(5));
    assert_eq!(range.next().map(|f| f.number()), None);
    assert_eq!(range.next().map(|f| f.number()), None);
}

#[test]
fn frame_range_with_start_after_end_is_empty() {
    let mut range =
        Frame::range_inclusive(Frame::containing_address(0x5000), Frame::containing_address(0x3000));
    assert!(range.next().is_none());
}

#[test]
fn page_contains_its_address() {
    for va in [0u64, 1, 4095, 4096, 0x7fff_ffff_f123, 0xffff_8000_0000_0000, 0xffff_ffff_ffff_e123] {
        let page = Page::containing_address(va);
        assert!(page.start_address() <= va);
        assert!(va < page.end_address());
        assert_eq!(page.end_address() - page.start_address(), 4096);
    }
}

#[test]
fn page_indices_are_nine_bit_digits() {
    let page = Page::containing_address(0o123_456_712_345_0000);
    assert_eq!(page.p4_index(), 0o123);
    assert_eq!(page.p3_index(), 0o456);
    assert_eq!(page.p2_index(), 0o712);
    assert_eq!(page.p1_index(), 0o345);
    let top = Page::containing_address(0xffff_ffff_ffff_f000);
    assert_eq!(top.p4_index(), 511);
    assert_eq!(top.p3_index(), 511);
    assert_eq!(top.p2_index(), 511);
    assert_eq!(top.p1_index(), 511);
}

#[test]
fn page_range_and_arithmetic() {
    let start = Page::containing_address(0x4000_0000_0000);
    let end = start.add(2);
    assert_eq!(end.number(), start.number() + 2);
    assert_eq!(end.sub(2), start);
    let mut range = Page::range_inclusive(start, end);
    assert_eq!(range.next(), Some(start));
    assert_eq!(range.next(), Some(start.add(1)));
    assert_eq!(range.next(), Some(end));
    assert_eq!(range.next(), None);
}

#[test]
fn page_range_nth_skips_pages() {
    let start = Page::containing_address(0x10_0000);
    let mut range = Page::range_inclusive(start, start.add(9));
    assert_eq!(range.nth(3), Some(start.add(3)));
    assert_eq!(range.next(), Some(start.add(4)));
    assert_eq!(range.nth(5), None);
    assert_eq!(range.next(), None);
}

#[test]
fn make_canonical_keeps_lower_half() {
    assert_eq!(make_address_canonical(0x0000_7FFF_FFFF_F000), 0x0000_7FFF_FFFF_F000);
    assert_eq!(make_address_canonical(0), 0);
}

#[test]
fn make_canonical_extends_bit_47() {
    assert_eq!(make_address_canonical(0x0000_8000_0000_0000), 0xFFFF_8000_0000_0000);
    assert_eq!(make_address_canonical(0x1234_8000_0000_0000), 0xFFFF_8000_0000_0000);
    assert_eq!(make_address_canonical(0xFFFF_7000_0000_1000), 0x0000_7000_0000_1000);
}
