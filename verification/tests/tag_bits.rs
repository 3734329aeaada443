//! The tagged-word utilities and the allocation header's bit packing.

use gc_core::ptr::{AllocationHeader, GcColor};
use gc_core::tag;

#[test]
fn untag_masks_low_bits() {
    assert_eq!(tag::untag(0x30 | 0xb), 0x30);
    assert_eq!(tag::untag(0x30), 0x30);
    assert_eq!(tag::untag(0xf), 0);
}

#[test]
fn get_reads_masked_bits() {
    assert_eq!(tag::get(0x37, 0x3), 0x3);
    assert_eq!(tag::get(0x34, 0x3), 0x0);
    assert_eq!(tag::get(0x34, 0x4), 0x4);
    assert_eq!(tag::get(0x38, 0x8), 0x8);
}

#[test]
fn set_replaces_only_masked_bits() {
    let mut word: usize = 0xf0;
    tag::set(&mut word, 0x3, 0x2);
    assert_eq!(word, 0xf2);
    tag::set(&mut word, 0x3, 0x1);
    assert_eq!(word, 0xf1);
    // Bits of the tag outside the mask are ignored.
    tag::set(&mut word, 0x3, 0xff);
    assert_eq!(word, 0xf3);
}

#[test]
fn set_bool_sets_and_clears() {
    let mut word: usize = 0x10;
    tag::set_bool(&mut word, 0x4, true);
    assert_eq!(word, 0x14);
    tag::set_bool(&mut word, 0x8, true);
    assert_eq!(word, 0x1c);
    tag::set_bool(&mut word, 0x4, false);
    assert_eq!(word, 0x18);
}

#[test]
fn new_header_is_white_and_clear() {
    let h = AllocationHeader::new(0x40);
    assert_eq!(h.color(), GcColor::White);
    assert!(!h.needs_trace());
    assert!(!h.is_live());
    assert_eq!(h.vtable(), 0x40);
    assert!(h.next().is_none());
}

#[test]
fn color_roundtrips_through_the_tag_bits() {
    let mut h = AllocationHeader::new(0x40);
    for c in [GcColor::White, GcColor::WhiteWeak, GcColor::Black, GcColor::Grey] {
        h.set_color(c);
        assert_eq!(h.color(), c);
    }
}

#[test]
fn setters_preserve_the_other_bits() {
    let mut h = AllocationHeader::new(0x40);
    h.set_live(true);
    h.set_needs_trace(true);
    h.set_color(GcColor::Black);
    h.set_next(Some(7));
    assert_eq!(h.color(), GcColor::Black);
    assert!(h.needs_trace());
    assert!(h.is_live());
    assert_eq!(h.vtable(), 0x40);
    assert_eq!(h.next(), Some(7));
    h.set_needs_trace(false);
    assert_eq!(h.color(), GcColor::Black);
    assert!(h.is_live());
    h.set_live(false);
    assert_eq!(h.color(), GcColor::Black);
    assert!(!h.needs_trace());
    assert_eq!(h.vtable(), 0x40);
    assert_eq!(h.next(), Some(7));
}
