use slab_alloc::init::{InitKind, InitSystem};
use slab_alloc::list::LinkedList;
use slab_alloc::ptr_map::PtrMap;
use slab_alloc::slab::Slab;
use slab_alloc::stack::SlotStack;
use slab_alloc::workingset::WorkingSet;

fn drain(list: &mut LinkedList) -> Vec<usize> {
    let mut out = Vec::new();
    while list.size() > 0 {
        out.push(list.remove_front());
    }
    out
}

#[test]
fn list_inserts_at_both_ends() {
    let mut list = LinkedList::new();
    assert_eq!(list.size(), 0);
    list.insert_back(3);
    list.insert_back(7);
    list.insert_front(5);
    assert_eq!(list.size(), 3);
    assert_eq!(list.peek_front(), 5);
    assert_eq!(list.peek_back(), 7);
    assert!(list.contains(3));
    assert!(!list.contains(4));
    assert!(!list.contains(100));
    assert_eq!(drain(&mut list), vec![5, 3, 7]);
}

#[test]
fn list_removes_from_both_ends() {
    let mut list = LinkedList::new();
    for id in [0, 1, 2, 3] {
        list.insert_back(id);
    }
    assert_eq!(list.remove_front(), 0);
    assert_eq!(list.remove_back(), 3);
    assert_eq!(list.size(), 2);
    assert!(!list.contains(0));
    assert!(!list.contains(3));
    assert_eq!(drain(&mut list), vec![1, 2]);
}

#[test]
fn list_removes_from_the_middle() {
    let mut list = LinkedList::new();
    for id in [4, 9, 2, 6] {
        list.insert_back(id);
    }
    list.remove(9);
    assert_eq!(list.size(), 3);
    assert!(!list.contains(9));
    assert_eq!(drain(&mut list), vec![4, 2, 6]);
}

#[test]
fn list_moves_to_back() {
    let mut list = LinkedList::new();
    for id in [4, 9, 2, 6] {
        list.insert_back(id);
    }
    list.move_to_back(9);
    assert_eq!(list.peek_back(), 9);
    list.move_to_back(4);
    assert_eq!(list.peek_front(), 2);
    list.move_to_back(4);
    assert_eq!(drain(&mut list), vec![2, 6, 9, 4]);
}

#[test]
fn list_relinks_after_it_ran_empty() {
    let mut list = LinkedList::new();
    list.insert_front(1);
    assert_eq!(list.remove_back(), 1);
    assert_eq!(list.size(), 0);
    list.insert_back(1);
    list.insert_front(0);
    assert_eq!(drain(&mut list), vec![0, 1]);
}

#[test]
fn stack_starts_full_and_pops_in_order() {
    let mut stack = SlotStack::new_full(8);
    assert_eq!(stack.capacity(), 8);
    assert_eq!(stack.len(), 8);
    for expected in 0..8 {
        assert!(stack.contains(expected));
        assert_eq!(stack.pop(), expected);
        assert!(!stack.contains(expected));
    }
    assert_eq!(stack.len(), 0);
}

#[test]
fn stack_is_last_in_first_out() {
    let mut stack = SlotStack::new_full(4);
    assert_eq!(stack.pop(), 0);
    assert_eq!(stack.pop(), 1);
    assert_eq!(stack.pop(), 2);
    stack.push(1);
    stack.push(0);
    assert_eq!(stack.len(), 3);
    assert_eq!(stack.pop(), 0);
    assert_eq!(stack.pop(), 1);
    assert_eq!(stack.pop(), 3);
}

#[test]
fn slab_hands_out_slots_at_stride() {
    let mut slab = Slab::new(0x1000, 0x1040, 16, 8);
    assert_eq!(slab.base(), 0x1000);
    assert_eq!(slab.slots_start(), 0x1040);
    assert_eq!(slab.object_size(), 16);
    assert_eq!(slab.capacity(), 8);
    assert!(slab.is_full());
    assert!(!slab.is_empty());
    for i in 0..8 {
        assert_eq!(slab.free_count(), 8 - i);
        assert_eq!(slab.allocate(), (0x1040 + 16 * i, false));
    }
    assert!(slab.is_empty());
    assert!(!slab.is_full());
}

#[test]
fn slab_finds_the_index_of_an_address() {
    let slab = Slab::new(0x1000, 0x1040, 16, 8);
    assert_eq!(slab.slot_index(0x1040), Some(0));
    assert_eq!(slab.slot_index(0x1050), Some(1));
    assert_eq!(slab.slot_index(0x10b0), Some(7));
    assert_eq!(slab.slot_index(0x10c0), None);
    assert_eq!(slab.slot_index(0x1048), None);
    assert_eq!(slab.slot_index(0x1030), None);
    assert_eq!(slab.slot_index(0), None);
}

#[test]
fn slab_knows_which_slots_are_handed_out() {
    let mut slab = Slab::new(0x1000, 0x1040, 16, 8);
    assert!(!slab.is_allocated(0x1040));
    let (addr, _) = slab.allocate();
    assert!(slab.is_allocated(addr));
    assert!(!slab.is_allocated(addr + 16));
    assert!(!slab.is_allocated(addr + 1));
    assert!(!slab.dealloc(0, false));
    assert!(!slab.is_allocated(addr));
}

#[test]
fn slab_remembers_constructed_objects() {
    let mut slab = Slab::new(0x1000, 0x1040, 16, 8);
    assert_eq!(slab.allocate(), (0x1040, false));
    assert_eq!(slab.allocate(), (0x1050, false));
    assert!(!slab.dealloc(0, true));
    assert!(!slab.dealloc(1, false));
    // last freed comes first
    assert_eq!(slab.allocate(), (0x1050, false));
    assert_eq!(slab.allocate(), (0x1040, true));
    // the flag is consumed with the slot
    assert!(!slab.dealloc(0, false));
    assert_eq!(slab.allocate(), (0x1040, false));
}

#[test]
fn slab_reports_that_it_was_empty() {
    let mut slab = Slab::new(0x2000, 0x2000, 64, 2);
    slab.allocate();
    slab.allocate();
    assert!(slab.is_empty());
    assert!(slab.dealloc(1, true));
    assert!(!slab.dealloc(0, true));
    assert!(slab.is_full());
}

#[test]
fn ptr_map_looks_up_exact_bases() {
    let mut map = PtrMap::new();
    assert_eq!(map.len(), 0);
    map.insert(0x3000, 2);
    map.insert(0x1000, 0);
    map.insert(0x2000, 1);
    assert_eq!(map.len(), 3);
    assert_eq!(map.get(0x1000), Some(0));
    assert_eq!(map.get(0x2000), Some(1));
    assert_eq!(map.get(0x3000), Some(2));
    assert_eq!(map.get(0x1001), None);
    assert_eq!(map.get(0), None);
}

#[test]
fn ptr_map_finds_the_region_at_or_below() {
    let mut map = PtrMap::new();
    assert_eq!(map.find_le(0x5000), None);
    map.insert(0x3000, 2);
    map.insert(0x1000, 0);
    map.insert(0x7000, 5);
    assert_eq!(map.find_le(0xfff), None);
    assert_eq!(map.find_le(0x1000), Some((0x1000, 0)));
    assert_eq!(map.find_le(0x2fff), Some((0x1000, 0)));
    assert_eq!(map.find_le(0x3000), Some((0x3000, 2)));
    assert_eq!(map.find_le(0x6fff), Some((0x3000, 2)));
    assert_eq!(map.find_le(usize::MAX), Some((0x7000, 5)));
}

#[test]
fn ptr_map_removes_entries() {
    let mut map = PtrMap::new();
    map.insert(0x1000, 0);
    map.insert(0x2000, 1);
    map.insert(0x3000, 2);
    assert_eq!(map.remove(0x2000), Some(1));
    assert_eq!(map.remove(0x2000), None);
    assert_eq!(map.remove(0x2800), None);
    assert_eq!(map.len(), 2);
    assert_eq!(map.get(0x2000), None);
    assert_eq!(map.find_le(0x2800), Some((0x1000, 0)));
    assert_eq!(map.remove(0x1000), Some(0));
    assert_eq!(map.remove(0x3000), Some(2));
    assert_eq!(map.len(), 0);
}

#[test]
fn working_set_tracks_the_minimum() {
    let mut ws = WorkingSet::new(5, 100);
    assert_eq!(ws.min(), 5);
    assert_eq!(ws.start(), 100);
    ws.update_min(7);
    assert_eq!(ws.min(), 5);
    ws.update_min(3);
    assert_eq!(ws.min(), 3);
    ws.update_min(3);
    assert_eq!(ws.min(), 3);
    assert_eq!(ws.start(), 100);
}

#[test]
fn working_set_refreshes_when_the_window_is_over() {
    let mut ws = WorkingSet::new(4, 100);
    assert_eq!(ws.refresh(15, 100), None);
    assert_eq!(ws.refresh(15, 114), None);
    assert_eq!(ws.start(), 100);
    assert_eq!(ws.refresh(15, 115), Some(4));
    assert_eq!(ws.start(), 115);
    assert_eq!(ws.min(), 4);
    assert_eq!(ws.refresh(15, 129), None);
    assert_eq!(ws.refresh(15, 200), Some(4));
    assert_eq!(ws.start(), 200);
}

#[test]
fn working_set_ignores_a_clock_that_runs_backwards() {
    let mut ws = WorkingSet::new(4, 100);
    assert_eq!(ws.refresh(15, 50), None);
    assert_eq!(ws.start(), 100);
    assert_eq!(ws.refresh(0, 50), Some(4));
    assert_eq!(ws.start(), 50);
}

#[test]
fn working_set_set_begins_a_new_window() {
    let mut ws = WorkingSet::new(4, 100);
    ws.update_min(1);
    ws.set(9, 130);
    assert_eq!(ws.min(), 9);
    assert_eq!(ws.start(), 130);
    assert_eq!(ws.refresh(15, 144), None);
    assert_eq!(ws.refresh(15, 145), Some(9));
}

#[test]
fn init_policies_follow_the_table() {
    for kind in [InitKind::Default, InitKind::Func, InitKind::UnsafeFunc] {
        let init = InitSystem::new(kind, 8);
        assert_eq!(init.kind(), kind);
        assert_eq!(init.min_align(), 8);
        assert!(init.status_initialized());
        assert!(init.must_construct(false));
        assert!(!init.must_construct(true));
    }
    let nop = InitSystem::new(InitKind::Nop, 8);
    assert_eq!(nop.kind(), InitKind::Nop);
    assert_eq!(nop.min_align(), 1);
    assert!(!nop.status_initialized());
    assert!(!nop.must_construct(false));
    assert!(!nop.must_construct(true));
}
