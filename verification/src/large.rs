//! The large slab family: page-aligned regions of any size, whose slab is
//! found by searching the map of region base addresses.

use crate::layout::{is_power_of_two, lemma_pow2_positive, round_up, round_up_spec, Layout};
use crate::pool::{Geometry, SlabPool};
use crate::slab::Slab;
use crate::stack::MAX_OBJECTS_PER_SLAB;
use crate::system::SlabSystem;
use vstd::arithmetic::power2::is_pow2;
use vstd::prelude::*;

verus! {

/// The bytes the slots of one slab take.
pub open spec fn required_size(layout: Layout, capacity: usize) -> int {
    capacity * layout.size()
}

/// The size of the backing region of a large slab: the slots, rounded up to
/// whole pages.
pub open spec fn backing_size_spec(layout: Layout, capacity: usize, page_size: usize) -> int {
    round_up_spec(required_size(layout, capacity), page_size as int)
}

/// The largest color offset: the greatest multiple of the alignment that the
/// room left over after the slots can hold.
pub open spec fn max_color_spec(layout: Layout, capacity: usize, region_size: usize) -> int {
    ((region_size - required_size(layout, capacity)) / (layout.align() as int)) * layout.align()
}

/// The geometry of large slabs in regions of `region_size` bytes.
pub open spec fn geometry_spec(
    layout: Layout,
    region_size: usize,
    page_size: usize,
    capacity: usize,
) -> Geometry {
    Geometry {
        object_size: layout.size(),
        align: layout.align(),
        capacity,
        region_size,
        region_align: page_size,
        slots_offset: 0,
        max_color: max_color_spec(layout, capacity, region_size) as usize,
    }
}

/// Whether large slabs with this layout fit in regions of `region_size`
/// bytes aligned to `page_size`.
pub open spec fn fits(layout: Layout, region_size: usize, page_size: usize, capacity: usize) -> bool {
    &&& is_pow2(page_size as int)
    &&& layout.align() <= page_size
    &&& required_size(layout, capacity) <= region_size
}

/// The greatest multiple of `align` that is at most `room`.
pub(crate) fn color_room(room: usize, align: usize) -> (r: usize)
    requires
        align > 0,
    ensures
        r == (room as int / align as int) * align,
        r <= room,
        r % align == 0,
{
    let q: usize = room / align;
    proof {
        vstd::arithmetic::div_mod::lemma_fundamental_div_mod(room as int, align as int);
        vstd::arithmetic::div_mod::lemma_mod_multiples_basic(q as int, align as int);
        assert(q * align == align * q) by (nonlinear_arith);
        assert(0 <= room as int % align as int);
    }
    q * align
}

/// The size of the backing region for large slabs of `capacity` objects of
/// this layout; `None` when it does not fit in a `usize`.
pub fn backing_size_for(layout: &Layout, capacity: usize, page_size: usize) -> (r: Option<usize>)
    requires
        layout.wf(),
        page_size > 0,
    ensures
        r.is_some() <==> backing_size_spec(*layout, capacity, page_size) <= usize::MAX,
        r.is_some() ==> r.unwrap() == backing_size_spec(*layout, capacity, page_size),
{
    match capacity.checked_mul(layout.size()) {
        Some(slots) => round_up(slots, page_size),
        None => {
            proof {
                crate::layout::lemma_round_up(
                    required_size(*layout, capacity),
                    page_size as int,
                );
                assert(capacity * layout.size() >= 0) by (nonlinear_arith)
                    requires
                        capacity >= 0,
                        layout.size() >= 0,
                ;
            }
            None
        },
    }
}

/// A slab needs room for at least one object.
pub proof fn lemma_required_positive(layout: Layout, capacity: usize)
    requires
        layout.wf(),
        capacity >= 1,
    ensures
        required_size(layout, capacity) >= layout.size() >= layout.align() >= 1,
{
    lemma_pow2_positive(layout.align() as int);
    assert(capacity * layout.size() >= layout.size()) by (nonlinear_arith)
        requires
            capacity >= 1,
            layout.size() >= 0,
    ;
}

/// The large slab family.
pub struct System {
    pool: SlabPool,
}

impl System {
    /// A family without slabs, for objects of `layout` in regions of
    /// `region_size` bytes aligned to `page_size`, `capacity` objects to the
    /// slab. `None` when such slabs do not fit.
    pub fn new(layout: Layout, region_size: usize, page_size: usize, capacity: usize) -> (r: Option<
        System,
    >)
        requires
            layout.wf(),
            1 <= capacity <= MAX_OBJECTS_PER_SLAB,
        ensures
            r.is_some() <==> fits(layout, region_size, page_size, capacity),
            r.is_some() ==> {
                &&& r.unwrap().wf()
                &&& r.unwrap().pool().spec_geometry() == geometry_spec(
                    layout,
                    region_size,
                    page_size,
                    capacity,
                )
                &&& r.unwrap().pool().slabs() == Map::<usize, Slab>::empty()
                &&& r.unwrap().pool().outstanding() == Set::<int>::empty()
                &&& r.unwrap().pool().spec_color() == 0
            },
    {
        proof {
            lemma_pow2_positive(layout.align() as int);
            assert(capacity * layout.size() >= 0) by (nonlinear_arith)
                requires
                    capacity >= 0,
                    layout.size() >= 0,
            ;
        }
        if !is_power_of_two(page_size) || layout.align() > page_size {
            return None;
        }
        let slots = match capacity.checked_mul(layout.size()) {
            Some(slots) => slots,
            None => {
                return None;
            },
        };
        if slots > region_size {
            return None;
        }
        let max_color = color_room(region_size - slots, layout.align());
        proof {
            vstd::arithmetic::div_mod::lemma_small_mod(0, layout.align() as nat);
        }
        let geometry = Geometry {
            object_size: layout.size(),
            align: layout.align(),
            capacity,
            region_size,
            region_align: page_size,
            slots_offset: 0,
            max_color,
        };
        Some(System { pool: SlabPool::new(geometry) })
    }
}

impl SlabSystem for System {
    closed spec fn pool(&self) -> SlabPool {
        self.pool
    }

    closed spec fn wf(&self) -> bool {
        self.pool.wf()
    }

    proof fn lemma_pool_wf(&self) {
    }

    fn region_layout(&self) -> (r: (usize, usize)) {
        let g = self.pool.geometry();
        (g.region_size, g.region_align)
    }

    fn alloc_slab(&mut self, region: Option<usize>) -> (r: Option<usize>) {
        match region {
            Some(base) => {
                if self.pool.accepts_region(base) {
                    Some(self.pool.add_slab(base))
                } else {
                    None
                }
            },
            None => None,
        }
    }

    fn dealloc_slab(&mut self, id: usize) -> (base: usize) {
        self.pool.remove_slab(id)
    }

    fn is_full(&self, id: usize) -> (r: bool) {
        proof {
            self.pool.lemma_wf();
        }
        self.pool.is_full(id)
    }

    fn is_empty(&self, id: usize) -> (r: bool) {
        self.pool.is_empty(id)
    }

    fn allocate(&mut self, id: usize) -> (r: (usize, bool)) {
        self.pool.allocate_from(id)
    }

    /// Searches the map for the region with the highest base that is not
    /// above `addr`; `addr` belongs to it or to no region at all.
    fn find(&self, addr: usize) -> (r: Option<usize>) {
        proof {
            self.pool.lemma_wf();
        }
        match self.pool.lookup_le(addr) {
            Some(id) => {
                let base = self.pool.base_of(id);
                if addr - base < self.pool.geometry().region_size {
                    Some(id)
                } else {
                    proof {
                        assert forall|j: usize| !#[trigger] self.pool.in_region(
                            addr as int,
                            j,
                        ) by {
                            if self.pool.in_region(addr as int, j) {
                                assert(self.pool.slabs().contains_key(id)
                                    && self.pool.slabs().contains_key(j));
                            }
                        }
                    }
                    None
                }
            },
            None => None,
        }
    }

    fn owns(&self, addr: usize) -> (r: bool) {
        let found = self.find(addr);
        self.pool.owns_found(addr, found)
    }

    fn dealloc(&mut self, addr: usize, initialized: bool) -> (r: (usize, bool)) {
        let found = self.find(addr);
        self.pool.dealloc_found(addr, found, initialized)
    }
}

} // verus!
