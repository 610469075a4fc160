use slab_alloc::allocator::{SlabAlloc, UntypedSlabAlloc};
use slab_alloc::builder::{SlabAllocBuilder, UntypedSlabAllocBuilder};
use slab_alloc::dispatch::{Family, OBJECTS_PER_SLAB};
use slab_alloc::init::InitKind;
use slab_alloc::layout::Layout;
use slab_alloc::sized::{Exhausted, WORKING_PERIOD_SECONDS};

const MIB: usize = 0x10_0000;

/// Regions at successive mebibytes, at most `limit` of them.
struct Backing {
    handed: usize,
    limit: usize,
}

impl Backing {
    fn new(limit: usize) -> Backing {
        Backing { handed: 0, limit }
    }

    fn next(&mut self) -> Option<usize> {
        if self.handed == self.limit {
            None
        } else {
            self.handed += 1;
            Some(self.handed * MIB)
        }
    }
}

fn untyped(size: usize, align: usize, page_size: usize, max_align: usize) -> UntypedSlabAlloc {
    let layout = Layout::from_size_align(size, align).unwrap();
    let builder = UntypedSlabAllocBuilder::no_initialize(layout).with_page_size(page_size);
    assert!(builder.can_build(max_align));
    builder.build_backing(max_align, 0)
}

fn alloc_one(a: &mut UntypedSlabAlloc, backing: &mut Backing) -> Result<usize, Exhausted> {
    if a.needs_slab() {
        let region = backing.next();
        if !a.alloc_slab(region) {
            return Err(Exhausted);
        }
    }
    a.allocate().map(|(addr, _)| addr)
}

#[test]
fn constants_are_as_designed() {
    assert_eq!(OBJECTS_PER_SLAB, 8);
    assert_eq!(WORKING_PERIOD_SECONDS, 15);
}

#[test]
fn basic_cycle() {
    let mut a = untyped(16, 8, 4096, 4096);
    let mut backing = Backing::new(usize::MAX);
    let mut held = Vec::new();
    for i in 0..8 {
        let addr = alloc_one(&mut a, &mut backing).unwrap();
        assert_eq!(addr, MIB + 40 + 16 * i);
        held.push(addr);
    }
    assert_eq!(a.freelist_len(), 0);
    assert_eq!(a.refcnt(), 8);
    assert_eq!(a.total_slabs(), 1);
    assert_eq!(a.num_full(), 0);
    for (i, addr) in held.iter().rev().enumerate() {
        assert!(a.dealloc(*addr, 0).is_empty());
        assert_eq!(a.refcnt(), 7 - i);
        assert_eq!(a.freelist_len(), 1);
    }
    assert_eq!(a.refcnt(), 0);
    assert_eq!(a.freelist_len(), 1);
    assert_eq!(a.num_full(), 1);
    assert_eq!(a.total_slabs(), 1);
}

#[test]
fn a_fresh_allocator_is_empty() {
    let mut a = untyped(16, 8, 4096, 4096);
    assert!(a.needs_slab());
    assert_eq!((a.refcnt(), a.total_slabs(), a.num_full(), a.freelist_len()), (0, 0, 0, 0));
    assert_eq!(a.allocate(), Err(Exhausted));
    assert_eq!((a.refcnt(), a.total_slabs(), a.num_full(), a.freelist_len()), (0, 0, 0, 0));
    assert!(!a.owns(MIB + 40));
}

#[test]
fn family_selection() {
    // eight objects of a page each never fit a region aligned to one page
    let large = untyped(4096, 4096, 4096, 4096);
    assert_eq!(large.family(), Family::Large);
    assert_eq!(large.region_layout(), (32768, 4096));
    // header, slot stack and eight small objects fit 256 bytes
    let small = untyped(16, 8, 4096, 4096);
    assert_eq!(small.family(), Family::Aligned);
    assert_eq!(small.region_layout(), (256, 256));
    // a backing allocator that aligns to 64 KiB takes the page-sized objects too
    let roomy = untyped(4096, 4096, 4096, 65536);
    assert_eq!(roomy.family(), Family::Aligned);
    assert_eq!(roomy.region_layout(), (65536, 65536));
    let tight = untyped(4096, 4096, 4096, 65535);
    assert_eq!(tight.family(), Family::Large);
}

#[test]
fn family_selection_at_the_boundary() {
    let fits = untyped(64, 64, 1024, 1024);
    assert_eq!(fits.family(), Family::Aligned);
    assert_eq!(fits.region_layout(), (1024, 1024));
    let over = untyped(64, 64, 512, 1023);
    assert_eq!(over.family(), Family::Large);
    assert_eq!(over.region_layout(), (512, 512));
}

#[test]
fn large_allocator_serves_and_takes_back() {
    let mut a = untyped(4096, 4096, 4096, 4096);
    let mut backing = Backing::new(usize::MAX);
    let mut held = Vec::new();
    for i in 0..20 {
        let addr = alloc_one(&mut a, &mut backing).unwrap();
        assert_eq!(addr, (1 + i / 8) * MIB + 4096 * (i % 8));
        assert!(a.owns(addr));
        held.push(addr);
    }
    assert_eq!((a.refcnt(), a.total_slabs(), a.freelist_len()), (20, 3, 1));
    assert!(!a.owns(MIB + 1));
    assert!(!a.owns(3 * MIB + 4096 * 4));
    assert!(!a.owns(4 * MIB));
    for addr in held {
        assert!(a.dealloc(addr, 0).is_empty());
        assert!(!a.owns(addr));
    }
    assert_eq!((a.refcnt(), a.total_slabs(), a.num_full(), a.freelist_len()), (0, 3, 3, 3));
}

#[test]
fn exhaustion_propagation() {
    let mut a = untyped(16, 8, 4096, 4096);
    let mut backing = Backing::new(2);
    let mut held = Vec::new();
    for _ in 0..16 {
        held.push(alloc_one(&mut a, &mut backing).unwrap());
    }
    assert_eq!((a.refcnt(), a.total_slabs(), a.freelist_len()), (16, 2, 0));
    // the third region is refused
    assert_eq!(alloc_one(&mut a, &mut backing), Err(Exhausted));
    assert_eq!(alloc_one(&mut a, &mut backing), Err(Exhausted));
    assert_eq!((a.refcnt(), a.total_slabs(), a.freelist_len()), (16, 2, 0));
    for addr in &held {
        assert!(a.owns(*addr));
    }
    // a slot that comes back can be handed out again without a new region
    let back = held.pop().unwrap();
    assert!(a.dealloc(back, 0).is_empty());
    assert_eq!((a.refcnt(), a.freelist_len()), (15, 1));
    assert_eq!(alloc_one(&mut a, &mut backing), Ok(back));
    assert_eq!(alloc_one(&mut a, &mut backing), Err(Exhausted));
    held.push(back);
    for addr in held {
        assert!(a.dealloc(addr, 0).is_empty());
    }
    assert_eq!((a.refcnt(), a.total_slabs(), a.num_full(), a.freelist_len()), (0, 2, 2, 2));
}

#[test]
fn a_refused_region_changes_nothing() {
    let mut a = untyped(16, 8, 4096, 4096);
    assert!(!a.alloc_slab(None));
    assert!(!a.alloc_slab(Some(0)));
    assert!(!a.alloc_slab(Some(MIB + 8)));
    assert_eq!((a.total_slabs(), a.num_full(), a.freelist_len()), (0, 0, 0));
    assert!(a.alloc_slab(Some(MIB)));
    assert!(!a.alloc_slab(Some(MIB)));
    assert_eq!((a.total_slabs(), a.num_full(), a.freelist_len()), (1, 1, 1));
}

#[test]
fn reclamation() {
    let mut a = untyped(16, 8, 4096, 4096);
    let mut backing = Backing::new(usize::MAX);
    let mut held = Vec::new();
    for _ in 0..24 {
        held.push(alloc_one(&mut a, &mut backing).unwrap());
    }
    assert_eq!((a.total_slabs(), a.num_full()), (3, 0));
    for addr in held {
        assert!(a.dealloc(addr, 0).is_empty());
    }
    assert_eq!((a.total_slabs(), a.num_full(), a.refcnt()), (3, 3, 0));
    // within the window nothing is given up
    let addr = alloc_one(&mut a, &mut backing).unwrap();
    assert_eq!(a.num_full(), 2);
    assert!(a.dealloc(addr, 14).is_empty());
    assert_eq!((a.total_slabs(), a.num_full()), (3, 3));
    // the first window saw an allocator without fully free slabs
    let addr = alloc_one(&mut a, &mut backing).unwrap();
    assert!(a.dealloc(addr, 15).is_empty());
    assert_eq!((a.total_slabs(), a.num_full()), (3, 3));
    // the second saw two of the three stay fully free throughout; the
    // slabs are colored 0, 8 and 16, and each round moves the head to the back
    let addr = alloc_one(&mut a, &mut backing).unwrap();
    assert_eq!(addr, 3 * MIB + 40 + 16 + 16 * 7);
    assert!(a.dealloc(addr, 29).is_empty());
    let addr = alloc_one(&mut a, &mut backing).unwrap();
    assert_eq!(addr, MIB + 40 + 16 * 7);
    assert_eq!(a.dealloc(addr, 30), vec![MIB, 3 * MIB]);
    assert_eq!((a.total_slabs(), a.num_full(), a.freelist_len(), a.refcnt()), (1, 1, 1, 0));
    assert!(!a.owns(addr));
    // the slab that is left serves on
    assert_eq!(alloc_one(&mut a, &mut backing), Ok(2 * MIB + 40 + 8 + 16 * 7));
}

#[test]
fn partial_slabs_are_preferred_to_fully_free_ones() {
    let mut a = untyped(16, 8, 4096, 4096);
    let mut backing = Backing::new(usize::MAX);
    let mut held = Vec::new();
    for _ in 0..16 {
        held.push(alloc_one(&mut a, &mut backing).unwrap());
    }
    // free all of the first slab, one slot of the second
    for addr in &held[0..8] {
        a.dealloc(*addr, 0);
    }
    a.dealloc(held[8], 0);
    assert_eq!((a.num_full(), a.freelist_len()), (1, 2));
    // the partial slab serves first although it came back last
    assert_eq!(alloc_one(&mut a, &mut backing), Ok(held[8]));
    assert_eq!((a.num_full(), a.freelist_len()), (1, 1));
    assert_eq!(alloc_one(&mut a, &mut backing), Ok(held[7]));
    assert_eq!((a.num_full(), a.freelist_len()), (0, 1));
}

#[test]
fn addresses_are_aligned_and_apart() {
    for (size, align) in [(16, 8), (64, 64), (24, 8), (4096, 4096), (96, 32), (1, 1)] {
        let mut a = untyped(size, align, 4096, 4096);
        let mut backing = Backing::new(usize::MAX);
        let mut held = Vec::new();
        for _ in 0..40 {
            held.push(alloc_one(&mut a, &mut backing).unwrap());
        }
        assert_eq!(a.refcnt(), 40);
        let (region_size, region_align) = a.region_layout();
        for addr in &held {
            assert_eq!(addr % align, 0);
            let base = addr - addr % MIB;
            assert_eq!(base % region_align, 0);
            assert!(addr + size <= base + region_size);
            assert!(a.owns(*addr));
        }
        held.sort();
        for pair in held.windows(2) {
            assert!(pair[1] - pair[0] >= size);
        }
    }
}

#[test]
fn counters_balance_over_round_trips() {
    let mut a = untyped(24, 8, 4096, 4096);
    let mut backing = Backing::new(usize::MAX);
    let mut held = Vec::new();
    for _ in 0..11 {
        held.push(alloc_one(&mut a, &mut backing).unwrap());
    }
    let before = (a.refcnt(), a.total_slabs(), a.num_full(), a.freelist_len());
    assert_eq!(before, (11, 2, 0, 1));
    for round in 0..50 {
        let addr = alloc_one(&mut a, &mut backing).unwrap();
        assert_eq!(a.refcnt(), 12);
        assert!(a.dealloc(addr, round).is_empty());
        assert_eq!((a.refcnt(), a.total_slabs(), a.num_full(), a.freelist_len()), before);
    }
}

#[test]
fn total_slabs_counts_listed_and_empty_slabs() {
    let mut a = untyped(16, 8, 4096, 4096);
    let mut backing = Backing::new(usize::MAX);
    let mut held = Vec::new();
    for _ in 0..24 {
        held.push(alloc_one(&mut a, &mut backing).unwrap());
    }
    // three slabs without a free slot, none listed
    assert_eq!((a.total_slabs(), a.freelist_len()), (3, 0));
    a.dealloc(held[9], 0);
    // two without a free slot, one listed
    assert_eq!((a.total_slabs(), a.freelist_len(), a.num_full()), (3, 1, 0));
    a.dealloc(held[0], 0);
    a.dealloc(held[17], 0);
    assert_eq!((a.total_slabs(), a.freelist_len(), a.num_full()), (3, 3, 0));
}

#[test]
fn constructed_objects_are_cached() {
    let builder = SlabAllocBuilder::<u64>::default().with_page_size(4096);
    assert_eq!(builder.init_system().kind(), InitKind::Default);
    let mut a: SlabAlloc<u64> = builder.build_backing(4096, 0);
    assert!(a.alloc_slab(Some(MIB)));
    let (addr, construct) = a.allocate().unwrap();
    assert!(construct);
    for round in 0..10 {
        assert!(a.dealloc(addr, round).is_empty());
        assert_eq!(a.allocate(), Ok((addr, false)));
    }
    // a slot that was never handed out needs an object
    let (other, construct) = a.allocate().unwrap();
    assert_ne!(other, addr);
    assert!(construct);
}

#[test]
fn raw_memory_is_never_constructed() {
    let builder = SlabAllocBuilder::<u64>::no_initialize().with_page_size(4096);
    assert_eq!(builder.init_system().kind(), InitKind::Nop);
    let mut a = builder.build_backing(4096, 0);
    assert!(a.alloc_slab(Some(MIB)));
    let (addr, construct) = a.allocate().unwrap();
    assert!(!construct);
    assert!(a.dealloc(addr, 0).is_empty());
    assert_eq!(a.allocate(), Ok((addr, false)));
}

#[test]
fn typed_builders_take_the_layout_of_the_type() {
    let b = SlabAllocBuilder::<u64>::default();
    assert_eq!((b.layout().size(), b.layout().align()), (8, 8));
    assert_eq!(b.init_system().min_align(), 8);
    let b = SlabAllocBuilder::<[u8; 48]>::func();
    assert_eq!((b.layout().size(), b.layout().align()), (48, 1));
    assert_eq!(b.init_system().kind(), InitKind::Func);
    let b = SlabAllocBuilder::<[u16; 3]>::unsafe_func();
    assert_eq!((b.layout().size(), b.layout().align()), (6, 2));
    assert_eq!(b.init_system().kind(), InitKind::UnsafeFunc);
    let b = SlabAllocBuilder::<u32>::no_initialize();
    assert_eq!((b.layout().size(), b.layout().align()), (4, 4));
    assert_eq!(b.init_system().min_align(), 1);
}

#[test]
fn builders_start_with_the_system_page_size() {
    let page = slab_alloc::page::page_size().unwrap();
    assert_eq!(SlabAllocBuilder::<u64>::default().page_size(), page);
    let layout = Layout::from_size_align(16, 8).unwrap();
    assert_eq!(UntypedSlabAllocBuilder::no_initialize(layout).page_size(), page);
    assert_eq!(UntypedSlabAllocBuilder::unsafe_func(layout).with_page_size(64).page_size(), 64);
}

#[test]
fn align_raises_the_alignment() {
    let b = SlabAllocBuilder::<[u8; 64]>::default().with_page_size(4096);
    assert!(b.accepts_align(16));
    assert!(b.accepts_align(64));
    assert!(!b.accepts_align(128));
    assert!(!b.accepts_align(24));
    assert!(!b.accepts_align(0));
    let b = b.align(16);
    assert_eq!((b.layout().size(), b.layout().align()), (64, 16));
    let b = b.align(4);
    assert_eq!((b.layout().size(), b.layout().align()), (64, 16));
    let b = b.align(64);
    assert_eq!((b.layout().size(), b.layout().align()), (64, 64));
    let mut a = b.build_backing(4096, 0);
    assert_eq!((a.layout().size(), a.layout().align()), (64, 64));
    assert!(a.alloc_slab(Some(MIB)));
    assert_eq!(a.allocate(), Ok((MIB + 64, true)));
}

#[test]
fn align_is_bounded_by_the_page_size() {
    let layout = Layout::from_size_align(8192, 8).unwrap();
    let b = UntypedSlabAllocBuilder::no_initialize(layout).with_page_size(4096);
    assert!(b.accepts_align(4096));
    assert!(!b.accepts_align(8192));
    let b = b.align(4096);
    assert_eq!((b.layout().size(), b.layout().align()), (8192, 4096));
}

#[test]
fn builders_say_when_they_cannot_build() {
    let layout = Layout::from_size_align(4096, 4096).unwrap();
    let b = UntypedSlabAllocBuilder::no_initialize(layout).with_page_size(4096);
    assert!(b.can_build(4096));
    // the backing allocator must align to pages at least
    assert!(!b.can_build(2048));
    // large slabs need pages that are a power of two
    let b = UntypedSlabAllocBuilder::no_initialize(layout).with_page_size(5000);
    assert!(!b.can_build(5000));
    assert!(b.can_build(65536));
    // and pages no smaller than the alignment
    let b = UntypedSlabAllocBuilder::no_initialize(layout).with_page_size(1024);
    assert!(!b.can_build(1024));
    // nothing holds eight objects of a quarter of the address space
    let huge = Layout::from_size_align(1usize << (usize::BITS - 2), 8).unwrap();
    let b = UntypedSlabAllocBuilder::no_initialize(huge).with_page_size(4096);
    assert!(!b.can_build(4096));
}

#[test]
fn heap_builds_align_to_pages() {
    let layout = Layout::from_size_align(4096, 4096).unwrap();
    let a = UntypedSlabAllocBuilder::unsafe_func(layout).with_page_size(4096).build(7);
    assert_eq!(a.family(), Family::Large);
    assert_eq!(a.init_system().kind(), InitKind::UnsafeFunc);
    let a = SlabAllocBuilder::<u64>::default().with_page_size(4096).build(7);
    assert_eq!(a.family(), Family::Aligned);
    assert_eq!(a.region_layout(), (128, 128));
    let a = SlabAllocBuilder::<u64>::func().with_page_size(4096).build_untyped(7);
    assert_eq!(a.family(), Family::Aligned);
    assert_eq!((a.layout().size(), a.layout().align()), (8, 8));
    let a = SlabAllocBuilder::<[u64; 1024]>::func().with_page_size(4096).build_untyped_backing(
        4096, 7,
    );
    assert_eq!(a.family(), Family::Large);
    assert_eq!(a.region_layout(), (65536, 4096));
}

#[test]
fn release_all_returns_every_region() {
    let mut a = untyped(16, 8, 4096, 4096);
    let mut backing = Backing::new(usize::MAX);
    let mut held = Vec::new();
    for _ in 0..17 {
        held.push(alloc_one(&mut a, &mut backing).unwrap());
    }
    for addr in held {
        a.dealloc(addr, 0);
    }
    let mut released = a.release_all();
    released.sort();
    assert_eq!(released, vec![MIB, 2 * MIB, 3 * MIB]);
    assert_eq!((a.total_slabs(), a.num_full(), a.freelist_len(), a.refcnt()), (0, 0, 0, 0));
    assert!(a.needs_slab());
}
