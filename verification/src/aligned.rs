//! The aligned slab family: every region is as large as its alignment, a
//! power of two, so the region an object lies in is found by masking the low
//! bits of the object's address.

use crate::large::color_room;
use crate::layout::{
    ceil_pow2, is_power_of_two, lemma_ceil_pow2, lemma_pow2_positive, lemma_round_up,
    next_power_of_two, round_up, round_up_spec, Layout,
};
use crate::pool::{Geometry, SlabPool};
use crate::slab::Slab;
use crate::stack::MAX_OBJECTS_PER_SLAB;
use crate::system::SlabSystem;
use vstd::arithmetic::power2::{is_pow2, is_pow2_equiv, lemma2_to64, lemma_pow2_strictly_increases, pow2};
use vstd::prelude::*;

verus! {

/// The bytes at the base of a region that are set aside for the slab header.
pub const HEADER_SIZE: usize = 32;

/// The offset of slot 0 at color 0: past the header and the slot stack, which
/// takes one byte per slot, rounded up to the alignment.
pub open spec fn slots_offset_spec(layout: Layout, capacity: usize) -> int {
    round_up_spec(HEADER_SIZE + capacity, layout.align() as int)
}

/// The bytes one slab needs: header, slot stack and slots.
pub open spec fn required_size(layout: Layout, capacity: usize) -> int {
    slots_offset_spec(layout, capacity) + capacity * layout.size()
}

/// The size, and alignment, of the backing region of an aligned slab: the
/// least power of two that holds header, slot stack and slots.
pub open spec fn backing_size_spec(layout: Layout, capacity: usize) -> nat {
    ceil_pow2(required_size(layout, capacity) as nat)
}

/// The largest color offset: the greatest multiple of the alignment that the
/// room left over after header, slot stack and slots can hold.
pub open spec fn max_color_spec(layout: Layout, capacity: usize, slab_size: usize) -> int {
    ((slab_size - required_size(layout, capacity)) / (layout.align() as int)) * layout.align()
}

/// The geometry of aligned slabs of `slab_size` bytes.
pub open spec fn geometry_spec(layout: Layout, slab_size: usize, capacity: usize) -> Geometry {
    Geometry {
        object_size: layout.size(),
        align: layout.align(),
        capacity,
        region_size: slab_size,
        region_align: slab_size,
        slots_offset: slots_offset_spec(layout, capacity) as usize,
        max_color: max_color_spec(layout, capacity, slab_size) as usize,
    }
}

/// Whether aligned slabs with this layout fit in regions of `slab_size`
/// bytes.
pub open spec fn fits(layout: Layout, slab_size: usize, capacity: usize) -> bool {
    &&& is_pow2(slab_size as int)
    &&& required_size(layout, capacity) <= slab_size
}

/// The base of the region of `size` bytes, aligned to `size`, that holds
/// `addr`.
pub open spec fn region_base(addr: int, size: int) -> int {
    addr - addr % size
}

/// Masking off the low bits of an address rounds it down to a multiple of
/// the power of two `size`.
pub proof fn lemma_mask_rounds_down(addr: u64, size: u64)
    requires
        is_pow2(size as int),
    ensures
        addr & !((size - 1) as u64) == region_base(addr as int, size as int),
{
    lemma_pow2_positive(size as int);
    is_pow2_equiv(size as int);
    let n = choose|i: nat| vstd::arithmetic::power::pow(2, i) == size as int;
    assert(pow2(n) == size);
    if n >= 64 {
        lemma2_to64();
        if n > 64 {
            lemma_pow2_strictly_increases(64, n);
        }
    }
    vstd::bits::lemma_u64_low_bits_mask_is_mod(addr, n);
    let m = (size - 1) as u64;
    assert(m == vstd::bits::low_bits_mask(n) as u64);
    assert(addr & m == addr % size);
    assert(addr & !m == addr - (addr & m)) by (bit_vector);
}

/// An address lies in the region that starts at the multiple `base` of
/// `size` exactly when rounding it down to a multiple of `size` gives `base`.
pub proof fn lemma_region_base(addr: int, base: int, size: int)
    requires
        size > 0,
        0 <= base,
        base % size == 0,
    ensures
        base <= addr < base + size <==> region_base(addr, size) == base,
{
    vstd::arithmetic::div_mod::lemma_fundamental_div_mod(base, size);
    vstd::arithmetic::div_mod::lemma_fundamental_div_mod(addr, size);
    if base <= addr < base + size {
        assert(base == (base / size) * size) by (nonlinear_arith)
            requires
                base == size * (base / size),
        ;
        vstd::arithmetic::div_mod::lemma_fundamental_div_mod_converse(
            addr,
            size,
            base / size,
            addr - base,
        );
    }
}

/// The size of the backing region for aligned slabs of `capacity` objects of
/// this layout; `None` when it does not fit in a `usize`.
pub fn backing_size_for(layout: &Layout, capacity: usize) -> (r: Option<usize>)
    requires
        layout.wf(),
        capacity <= MAX_OBJECTS_PER_SLAB,
    ensures
        r.is_some() <==> backing_size_spec(*layout, capacity) <= usize::MAX,
        r.is_some() ==> r.unwrap() == backing_size_spec(*layout, capacity),
{
    proof {
        lemma_pow2_positive(layout.align() as int);
        lemma_round_up(HEADER_SIZE + capacity, layout.align() as int);
        lemma_ceil_pow2(required_size(*layout, capacity) as nat);
        assert(capacity * layout.size() >= 0) by (nonlinear_arith)
            requires
                capacity >= 0,
                layout.size() >= 0,
        ;
    }
    let offset = match round_up(HEADER_SIZE + capacity, layout.align()) {
        Some(offset) => offset,
        None => {
            return None;
        },
    };
    let slots = match capacity.checked_mul(layout.size()) {
        Some(slots) => slots,
        None => {
            return None;
        },
    };
    match offset.checked_add(slots) {
        Some(required) => next_power_of_two(required),
        None => None,
    }
}

/// A slab needs room for at least one object.
pub proof fn lemma_required_positive(layout: Layout, capacity: usize)
    requires
        layout.wf(),
        capacity >= 1,
    ensures
        required_size(layout, capacity) >= layout.size() >= layout.align() >= 1,
{
    lemma_pow2_positive(layout.align() as int);
    lemma_round_up(HEADER_SIZE + capacity, layout.align() as int);
    assert(capacity * layout.size() >= layout.size()) by (nonlinear_arith)
        requires
            capacity >= 1,
            layout.size() >= 0,
    ;
}

/// The aligned slab family.
pub struct System {
    pool: SlabPool,
}

impl System {
    /// A family without slabs, for objects of `layout` in regions of
    /// `slab_size` bytes aligned to `slab_size`, `capacity` objects to the
    /// slab. `None` when `slab_size` is no power of two or such slabs do not
    /// fit.
    pub fn new(layout: Layout, slab_size: usize, capacity: usize) -> (r: Option<System>)
        requires
            layout.wf(),
            1 <= capacity <= MAX_OBJECTS_PER_SLAB,
        ensures
            r.is_some() <==> fits(layout, slab_size, capacity),
            r.is_some() ==> {
                &&& r.unwrap().wf()
                &&& r.unwrap().pool().spec_geometry() == geometry_spec(layout, slab_size, capacity)
                &&& r.unwrap().pool().slabs() == Map::<usize, Slab>::empty()
                &&& r.unwrap().pool().outstanding() == Set::<int>::empty()
                &&& r.unwrap().pool().spec_color() == 0
            },
    {
        proof {
            lemma_pow2_positive(layout.align() as int);
            lemma_round_up(HEADER_SIZE + capacity, layout.align() as int);
            assert(capacity * layout.size() >= layout.size()) by (nonlinear_arith)
                requires
                    capacity >= 1,
                    layout.size() >= 0,
            ;
        }
        if !is_power_of_two(slab_size) {
            return None;
        }
        let offset = match round_up(HEADER_SIZE + capacity, layout.align()) {
            Some(offset) => offset,
            None => {
                return None;
            },
        };
        let slots = match capacity.checked_mul(layout.size()) {
            Some(slots) => slots,
            None => {
                return None;
            },
        };
        let required = match offset.checked_add(slots) {
            Some(required) => required,
            None => {
                return None;
            },
        };
        if required > slab_size {
            return None;
        }
        let max_color = color_room(slab_size - required, layout.align());
        let geometry = Geometry {
            object_size: layout.size(),
            align: layout.align(),
            capacity,
            region_size: slab_size,
            region_align: slab_size,
            slots_offset: offset,
            max_color,
        };
        Some(System { pool: SlabPool::new(geometry) })
    }
}

impl System {
    /// Masking off the low bits of a handed-out address gives the base
    /// address of the region of a live slab: the slab the address belongs to.
    pub proof fn lemma_outstanding_masks_to_slab(&self, addr: usize)
        requires
            self.wf(),
            self.pool().outstanding().contains(addr as int),
        ensures
            self.pool().slabs().contains_key(self.pool().owner(addr as int)),
            self.pool().slabs()[self.pool().owner(addr as int)].spec_base() == (addr as u64) & !((
            self.pool().spec_geometry().region_size - 1) as u64),
    {
        let pool = self.pool();
        let size = pool.spec_geometry().region_size;
        pool.lemma_wf();
        let id = pool.owner(addr as int);
        assert(pool.held(addr as int, id));
        pool.lemma_held_in_region(addr as int, id);
        assert(pool.slab_ok(pool.slabs()[id]));
        lemma_pow2_positive(size as int);
        lemma_mask_rounds_down(addr as u64, size as u64);
        lemma_region_base(addr as int, pool.slabs()[id].spec_base() as int, size as int);
    }
}

impl SlabSystem for System {
    closed spec fn pool(&self) -> SlabPool {
        self.pool
    }

    closed spec fn wf(&self) -> bool {
        &&& self.pool.wf()
        &&& self.pool.spec_geometry().region_align == self.pool.spec_geometry().region_size
    }

    proof fn lemma_pool_wf(&self) {
    }

    fn region_layout(&self) -> (r: (usize, usize)) {
        let g = self.pool.geometry();
        (g.region_size, g.region_align)
    }

    fn alloc_slab(&mut self, region: Option<usize>) -> (r: Option<usize>) {
        match region {
            Some(base) => {
                if self.pool.accepts_region(base) {
                    Some(self.pool.add_slab(base))
                } else {
                    None
                }
            },
            None => None,
        }
    }

    fn dealloc_slab(&mut self, id: usize) -> (base: usize) {
        self.pool.remove_slab(id)
    }

    fn is_full(&self, id: usize) -> (r: bool) {
        proof {
            self.pool.lemma_wf();
        }
        self.pool.is_full(id)
    }

    fn is_empty(&self, id: usize) -> (r: bool) {
        self.pool.is_empty(id)
    }

    fn allocate(&mut self, id: usize) -> (r: (usize, bool)) {
        self.pool.allocate_from(id)
    }

    /// Masks off the low bits of `addr`; a slab whose region starts there
    /// holds `addr`, and no other region can.
    fn find(&self, addr: usize) -> (r: Option<usize>) {
        let size = self.pool.geometry().region_size;
        proof {
            self.pool.lemma_wf();
            lemma_pow2_positive(size as int);
            lemma_mask_rounds_down(addr as u64, size as u64);
        }
        let base = ((addr as u64) & !((size as u64) - 1)) as usize;
        let found = self.pool.lookup_base(base);
        proof {
            match found {
                Some(id) => {
                    assert(self.pool.slab_ok(self.pool.slabs()[id]));
                    lemma_region_base(addr as int, base as int, size as int);
                },
                None => {
                    assert forall|j: usize| !#[trigger] self.pool.in_region(addr as int, j) by {
                        if self.pool.in_region(addr as int, j) {
                            assert(self.pool.slabs().contains_key(j));
                            assert(self.pool.slab_ok(self.pool.slabs()[j]));
                            lemma_region_base(
                                addr as int,
                                self.pool.slabs()[j].spec_base() as int,
                                size as int,
                            );
                        }
                    }
                },
            }
        }
        found
    }

    fn owns(&self, addr: usize) -> (r: bool) {
        let found = self.find(addr);
        self.pool.owns_found(addr, found)
    }

    fn dealloc(&mut self, addr: usize, initialized: bool) -> (r: (usize, bool)) {
        let found = self.find(addr);
        self.pool.dealloc_found(addr, found, initialized)
    }
}

} // verus!
