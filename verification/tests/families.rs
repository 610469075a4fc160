use slab_alloc::aligned;
use slab_alloc::init::{InitKind, InitSystem};
use slab_alloc::large;
use slab_alloc::layout::Layout;
use slab_alloc::sized::{Exhausted, SizedSlabAlloc};
use slab_alloc::system::SlabSystem;

const MIB: usize = 0x10_0000;

fn layout(size: usize, align: usize) -> Layout {
    Layout::from_size_align(size, align).unwrap()
}

fn nop() -> InitSystem {
    InitSystem::new(InitKind::Nop, 1)
}

#[test]
fn aligned_backing_size_is_the_least_power_of_two() {
    // 32 bytes of header and 8 of slot stack, rounded up to the alignment
    assert_eq!(aligned::backing_size_for(&layout(16, 8), 8), Some(256));
    assert_eq!(aligned::backing_size_for(&layout(64, 64), 8), Some(1024));
    assert_eq!(aligned::backing_size_for(&layout(4096, 4096), 8), Some(65536));
    assert_eq!(aligned::backing_size_for(&layout(8, 8), 1), Some(64));
    assert_eq!(aligned::backing_size_for(&layout(24, 8), 1), Some(64));
    assert_eq!(aligned::backing_size_for(&layout(32, 8), 1), Some(128));
}

#[test]
fn aligned_backing_size_reports_overflow() {
    let huge = 1usize << (usize::BITS - 2);
    assert_eq!(aligned::backing_size_for(&layout(huge, 8), 8), None);
    assert_eq!(aligned::backing_size_for(&layout(huge, 8), 2), None);
    assert_eq!(aligned::backing_size_for(&layout(huge, 8), 1), Some(huge << 1));
}

#[test]
fn large_backing_size_is_whole_pages() {
    assert_eq!(large::backing_size_for(&layout(4096, 4096), 8, 4096), Some(32768));
    assert_eq!(large::backing_size_for(&layout(16, 8), 8, 4096), Some(4096));
    assert_eq!(large::backing_size_for(&layout(96, 32), 8, 4096), Some(4096));
    assert_eq!(large::backing_size_for(&layout(520, 8), 8, 4096), Some(8192));
    assert_eq!(large::backing_size_for(&layout(64, 64), 8, 512), Some(512));
}

#[test]
fn large_backing_size_reports_overflow() {
    let huge = 1usize << (usize::BITS - 2);
    assert_eq!(large::backing_size_for(&layout(huge, 8), 8, 4096), None);
    assert_eq!(large::backing_size_for(&layout(usize::MAX - 7, 8), 1, 4096), None);
}

#[test]
fn aligned_system_needs_a_power_of_two_that_fits() {
    assert!(aligned::System::new(layout(16, 8), 256, 8).is_some());
    assert!(aligned::System::new(layout(16, 8), 512, 8).is_some());
    assert!(aligned::System::new(layout(16, 8), 128, 8).is_none());
    assert!(aligned::System::new(layout(16, 8), 300, 8).is_none());
    assert!(aligned::System::new(layout(16, 8), 0, 8).is_none());
}

#[test]
fn large_system_needs_pages_that_fit() {
    assert!(large::System::new(layout(64, 64), 512, 4096, 8).is_some());
    assert!(large::System::new(layout(64, 64), 704, 4096, 8).is_some());
    assert!(large::System::new(layout(64, 64), 511, 4096, 8).is_none());
    assert!(large::System::new(layout(64, 64), 512, 4000, 8).is_none());
    assert!(large::System::new(layout(64, 64), 512, 32, 8).is_none());
}

#[test]
fn systems_report_their_region_layout() {
    let a = aligned::System::new(layout(16, 8), 256, 8).unwrap();
    assert_eq!(a.region_layout(), (256, 256));
    let l = large::System::new(layout(64, 64), 704, 4096, 8).unwrap();
    assert_eq!(l.region_layout(), (704, 4096));
}

#[test]
fn aligned_system_finds_slabs_by_masking() {
    let mut s = aligned::System::new(layout(16, 8), 256, 8).unwrap();
    let a = s.alloc_slab(Some(0x1000)).unwrap();
    let b = s.alloc_slab(Some(0x1300)).unwrap();
    assert_ne!(a, b);
    assert_eq!(s.find(0x1000), Some(a));
    assert_eq!(s.find(0x10ff), Some(a));
    assert_eq!(s.find(0x1100), None);
    assert_eq!(s.find(0x12ff), None);
    assert_eq!(s.find(0x1300), Some(b));
    assert_eq!(s.find(0x13ff), Some(b));
    assert_eq!(s.find(0x1400), None);
    assert_eq!(s.find(0), None);
    assert_eq!(s.find(usize::MAX), None);
}

#[test]
fn large_system_finds_slabs_by_interval() {
    let mut s = large::System::new(layout(64, 64), 704, 4096, 8).unwrap();
    let a = s.alloc_slab(Some(0x1000)).unwrap();
    let b = s.alloc_slab(Some(0x3000)).unwrap();
    assert_eq!(s.find(0x0fff), None);
    assert_eq!(s.find(0x1000), Some(a));
    assert_eq!(s.find(0x1000 + 703), Some(a));
    assert_eq!(s.find(0x1000 + 704), None);
    assert_eq!(s.find(0x2fff), None);
    assert_eq!(s.find(0x3000), Some(b));
    assert_eq!(s.find(0x3000 + 703), Some(b));
    assert_eq!(s.find(0x3000 + 704), None);
    assert_eq!(s.find(usize::MAX), None);
}

#[test]
fn systems_refuse_unusable_regions() {
    let mut s = large::System::new(layout(64, 64), 8192, 4096, 8).unwrap();
    assert_eq!(s.alloc_slab(None), None);
    assert_eq!(s.alloc_slab(Some(0)), None);
    assert_eq!(s.alloc_slab(Some(0x1008)), None);
    assert_eq!(s.alloc_slab(Some(usize::MAX - 4095)), None);
    let a = s.alloc_slab(Some(0x10000)).unwrap();
    // overlapping from above, from below, and the same region again
    assert_eq!(s.alloc_slab(Some(0x11000)), None);
    assert_eq!(s.alloc_slab(Some(0xf000)), None);
    assert_eq!(s.alloc_slab(Some(0x10000)), None);
    // adjacent regions are fine
    let b = s.alloc_slab(Some(0x12000)).unwrap();
    let c = s.alloc_slab(Some(0xe000)).unwrap();
    assert!(a != b && b != c && a != c);
    assert_eq!(s.find(0x11fff), Some(a));
    assert_eq!(s.find(0x12000), Some(b));
    assert_eq!(s.find(0xffff), Some(c));
}

#[test]
fn aligned_system_refuses_misaligned_regions() {
    let mut s = aligned::System::new(layout(16, 8), 256, 8).unwrap();
    assert_eq!(s.alloc_slab(Some(0x1080)), None);
    assert_eq!(s.alloc_slab(Some(0x1008)), None);
    assert!(s.alloc_slab(Some(0x1100)).is_some());
    assert_eq!(s.alloc_slab(Some(0x1100)), None);
}

#[test]
fn system_reuses_the_handle_of_a_slab_given_up() {
    let mut s = aligned::System::new(layout(16, 8), 256, 8).unwrap();
    let a = s.alloc_slab(Some(0x1000)).unwrap();
    let b = s.alloc_slab(Some(0x2000)).unwrap();
    assert_eq!(s.dealloc_slab(a), 0x1000);
    assert_eq!(s.find(0x1000), None);
    let c = s.alloc_slab(Some(0x3000)).unwrap();
    assert_eq!(c, a);
    assert_eq!(s.find(0x3000), Some(c));
    assert_eq!(s.find(0x2000), Some(b));
    // the region that was given up can back a slab again
    assert!(s.alloc_slab(Some(0x1000)).is_some());
}

#[test]
fn system_allocates_and_takes_back() {
    let mut s = aligned::System::new(layout(16, 8), 256, 8).unwrap();
    let id = s.alloc_slab(Some(0x1000)).unwrap();
    assert!(s.is_full(id));
    assert!(!s.is_empty(id));
    assert!(!s.owns(0x1028));
    assert_eq!(s.allocate(id), (0x1028, false));
    assert!(s.owns(0x1028));
    assert!(!s.owns(0x1038));
    assert!(!s.owns(0x1029));
    assert!(!s.is_full(id));
    assert_eq!(s.allocate(id), (0x1038, false));
    assert_eq!(s.dealloc(0x1028, true), (id, false));
    assert!(!s.owns(0x1028));
    assert_eq!(s.allocate(id), (0x1028, true));
    for i in 2..8 {
        assert_eq!(s.allocate(id), (0x1028 + 16 * i, false));
    }
    assert!(s.is_empty(id));
    assert_eq!(s.dealloc(0x1098, false), (id, true));
    assert!(!s.is_empty(id));
}

#[test]
fn colors_cycle_through_the_room_left_over() {
    // 8 slots of 64 bytes in 704 bytes leave room for the offsets 0, 64, 128, 192
    let system = large::System::new(layout(64, 64), 704, 4096, 8).unwrap();
    let mut a = SizedSlabAlloc::new(nop(), layout(64, 64), system, 0);
    let mut offsets = Vec::new();
    for k in 1..=9 {
        let base = k * MIB;
        assert!(a.needs_slab());
        assert!(a.alloc_slab(Some(base)));
        let (first, _) = a.allocate().unwrap();
        offsets.push(first - base);
        for i in 1..8 {
            assert_eq!(a.allocate(), Ok((first + 64 * i, false)));
        }
    }
    assert_eq!(offsets, vec![0, 64, 128, 192, 0, 64, 128, 192, 0]);
}

#[test]
fn aligned_colors_start_past_the_header() {
    // header and slot stack take 40 bytes, rounded up to 64; 8 slots of 64
    // bytes in 1024 leave room for the offsets 0, 64, .., 448
    let system = aligned::System::new(layout(64, 64), 1024, 8).unwrap();
    let mut a = SizedSlabAlloc::new(nop(), layout(64, 64), system, 0);
    let mut offsets = Vec::new();
    for k in 1..=9 {
        let base = k * MIB;
        assert!(a.alloc_slab(Some(base)));
        let (first, _) = a.allocate().unwrap();
        offsets.push(first - base);
        for _ in 1..8 {
            a.allocate().unwrap();
        }
    }
    assert_eq!(offsets, vec![64, 128, 192, 256, 320, 384, 448, 512, 64]);
}

#[test]
fn a_slab_without_room_has_one_color() {
    let system = large::System::new(layout(64, 64), 512, 4096, 8).unwrap();
    let mut a = SizedSlabAlloc::new(nop(), layout(64, 64), system, 0);
    for k in 1..=3 {
        assert!(a.alloc_slab(Some(k * MIB)));
        assert_eq!(a.allocate(), Ok((k * MIB, false)));
        for _ in 1..8 {
            a.allocate().unwrap();
        }
    }
}

#[test]
fn single_slot_slabs_go_from_empty_to_fully_free() {
    let system = aligned::System::new(layout(16, 8), 64, 1).unwrap();
    let mut a = SizedSlabAlloc::new(nop(), layout(16, 8), system, 0);
    assert!(a.alloc_slab(Some(MIB)));
    assert_eq!((a.freelist_len(), a.num_full(), a.total_slabs()), (1, 1, 1));
    assert_eq!(a.allocate(), Ok((MIB + 40, false)));
    assert_eq!((a.freelist_len(), a.num_full(), a.refcnt()), (0, 0, 1));
    assert_eq!(a.allocate(), Err(Exhausted));
    assert!(a.alloc_slab(Some(2 * MIB)));
    assert_eq!(a.allocate(), Ok((2 * MIB + 48, false)));
    assert_eq!((a.freelist_len(), a.num_full(), a.total_slabs()), (0, 0, 2));
    // each slab goes from no free slot to all slots free in one step
    assert_eq!(a.dealloc(MIB + 40, 1), Vec::<usize>::new());
    assert_eq!((a.freelist_len(), a.num_full(), a.refcnt()), (1, 1, 1));
    assert_eq!(a.dealloc(2 * MIB + 48, 1), Vec::<usize>::new());
    assert_eq!((a.freelist_len(), a.num_full(), a.refcnt()), (2, 2, 0));
    // the slab freed first is handed out first
    assert_eq!(a.allocate(), Ok((MIB + 40, false)));
}

#[test]
fn reclamation_gives_up_the_window_minimum() {
    let system = aligned::System::new(layout(16, 8), 256, 8).unwrap();
    let mut a = SizedSlabAlloc::new(nop(), layout(16, 8), system, 0);
    let mut held = Vec::new();
    for k in 1..=2 {
        assert!(a.alloc_slab(Some(k * MIB)));
        for _ in 0..8 {
            held.push(a.allocate().unwrap().0);
        }
    }
    for addr in held {
        assert_eq!(a.dealloc(addr, 0), Vec::<usize>::new());
    }
    assert_eq!((a.num_full(), a.total_slabs(), a.freelist_len()), (2, 2, 2));
    // no slab was fully free when the first window began
    assert_eq!(a.garbage_collect_slabs(14), Vec::<usize>::new());
    assert_eq!(a.garbage_collect_slabs(15), Vec::<usize>::new());
    assert_eq!((a.num_full(), a.total_slabs()), (2, 2));
    // both were throughout the second
    assert_eq!(a.garbage_collect_slabs(29), Vec::<usize>::new());
    assert_eq!(a.garbage_collect_slabs(30), vec![2 * MIB, MIB]);
    assert_eq!((a.num_full(), a.total_slabs(), a.freelist_len()), (0, 0, 0));
    assert_eq!(a.garbage_collect_slabs(100), Vec::<usize>::new());
    assert!(a.needs_slab());
}

#[test]
fn release_all_gives_up_every_slab() {
    let system = large::System::new(layout(64, 64), 704, 4096, 8).unwrap();
    let mut a = SizedSlabAlloc::new(nop(), layout(64, 64), system, 0);
    let mut held = Vec::new();
    for k in 1..=3 {
        assert!(a.alloc_slab(Some(k * MIB)));
        for _ in 0..8 {
            held.push(a.allocate().unwrap().0);
        }
    }
    for addr in held.iter().rev() {
        a.dealloc(*addr, 0);
    }
    assert_eq!((a.refcnt(), a.total_slabs(), a.num_full()), (0, 3, 3));
    let mut released = a.release_all();
    released.sort();
    assert_eq!(released, vec![MIB, 2 * MIB, 3 * MIB]);
    assert_eq!((a.refcnt(), a.total_slabs(), a.num_full(), a.freelist_len()), (0, 0, 0, 0));
    assert_eq!(a.allocate(), Err(Exhausted));
    assert!(a.alloc_slab(Some(MIB)));
    assert!(a.allocate().is_ok());
}
