use slab_alloc::layout::{is_power_of_two, next_power_of_two, round_up, satisfy_min_align, Layout};
use slab_alloc::page::{page_size, usable_page_size};

#[test]
fn power_of_two_is_recognised() {
    assert!(is_power_of_two(1));
    assert!(is_power_of_two(2));
    assert!(is_power_of_two(4096));
    assert!(is_power_of_two(1usize << (usize::BITS - 1)));
    assert!(!is_power_of_two(0));
    assert!(!is_power_of_two(3));
    assert!(!is_power_of_two(4097));
    assert!(!is_power_of_two(usize::MAX));
}

#[test]
fn round_up_gives_the_least_multiple() {
    assert_eq!(round_up(0, 8), Some(0));
    assert_eq!(round_up(1, 8), Some(8));
    assert_eq!(round_up(8, 8), Some(8));
    assert_eq!(round_up(9, 8), Some(16));
    assert_eq!(round_up(40, 64), Some(64));
    assert_eq!(round_up(4095, 4096), Some(4096));
    assert_eq!(round_up(7, 1), Some(7));
}

#[test]
fn round_up_reports_overflow() {
    assert_eq!(round_up(usize::MAX, 2), None);
    assert_eq!(round_up(usize::MAX - 6, 8), None);
    assert_eq!(round_up(usize::MAX - 7, 8), Some(usize::MAX - 7));
    assert_eq!(round_up(usize::MAX, 1), Some(usize::MAX));
}

#[test]
fn next_power_of_two_gives_the_least_power() {
    assert_eq!(next_power_of_two(0), Some(1));
    assert_eq!(next_power_of_two(1), Some(1));
    assert_eq!(next_power_of_two(2), Some(2));
    assert_eq!(next_power_of_two(3), Some(4));
    assert_eq!(next_power_of_two(168), Some(256));
    assert_eq!(next_power_of_two(256), Some(256));
    assert_eq!(next_power_of_two(257), Some(512));
    assert_eq!(next_power_of_two(32832), Some(65536));
}

#[test]
fn next_power_of_two_reports_overflow() {
    let top = 1usize << (usize::BITS - 1);
    assert_eq!(next_power_of_two(top), Some(top));
    assert_eq!(next_power_of_two(top + 1), None);
    assert_eq!(next_power_of_two(usize::MAX), None);
}

#[test]
fn next_power_of_two_agrees_with_std() {
    for x in 0usize..5000 {
        assert_eq!(next_power_of_two(x), Some(x.next_power_of_two()));
        assert_eq!(is_power_of_two(x), x.is_power_of_two());
    }
}

#[test]
fn layout_keeps_size_and_align() {
    let layout = Layout::from_size_align(16, 8).unwrap();
    assert_eq!(layout.size(), 16);
    assert_eq!(layout.align(), 8);
    let same = Layout::from_size_align(64, 64).unwrap();
    assert_eq!(same.size(), 64);
    assert_eq!(same.align(), 64);
}

#[test]
fn layout_rejects_bad_alignment() {
    assert!(Layout::from_size_align(16, 0).is_none());
    assert!(Layout::from_size_align(16, 3).is_none());
    assert!(Layout::from_size_align(16, 12).is_none());
}

#[test]
fn layout_rejects_alignment_above_size() {
    assert!(Layout::from_size_align(8, 16).is_none());
    assert!(Layout::from_size_align(0, 1).is_none());
}

#[test]
fn layout_rejects_size_not_a_multiple() {
    assert!(Layout::from_size_align(12, 8).is_none());
    assert!(Layout::from_size_align(24, 16).is_none());
    assert!(Layout::from_size_align(24, 8).is_some());
}

#[test]
fn align_to_keeps_the_stricter_alignment() {
    let layout = Layout::from_size_align(64, 8).unwrap();
    let raised = layout.align_to(32);
    assert_eq!((raised.size(), raised.align()), (64, 32));
    let kept = raised.align_to(16);
    assert_eq!((kept.size(), kept.align()), (64, 32));
}

#[test]
fn min_align_below_the_layout_changes_nothing() {
    let layout = Layout::from_size_align(48, 16).unwrap();
    assert_eq!(satisfy_min_align(layout, 1), Some(layout));
    assert_eq!(satisfy_min_align(layout, 16), Some(layout));
}

#[test]
fn min_align_above_the_layout_pads_the_size() {
    let layout = Layout::from_size_align(48, 16).unwrap();
    let raised = satisfy_min_align(layout, 32).unwrap();
    assert_eq!((raised.size(), raised.align()), (64, 32));
    let small = Layout::from_size_align(4, 4).unwrap();
    let raised = satisfy_min_align(small, 8).unwrap();
    assert_eq!((raised.size(), raised.align()), (8, 8));
}

#[test]
fn min_align_reports_overflow() {
    let top = 1usize << (usize::BITS - 1);
    let layout = Layout::from_size_align(top + 8, 8).unwrap();
    assert_eq!(satisfy_min_align(layout, top), None);
}

#[test]
fn usable_page_size_keeps_powers_of_two_only() {
    assert_eq!(usable_page_size(4096), Some(4096));
    assert_eq!(usable_page_size(16384), Some(16384));
    assert_eq!(usable_page_size(1), Some(1));
    assert_eq!(usable_page_size(0), None);
    assert_eq!(usable_page_size(4000), None);
}

#[test]
fn system_page_size_is_a_power_of_two() {
    let size = page_size().unwrap();
    assert!(size.is_power_of_two());
    assert!(size >= 512);
}
