//! The choice between the two slab families, made once when an allocator is
//! built, and the allocator that results from it.

use crate::aligned;
use crate::init::InitSystem;
use crate::large;
use crate::layout::{lemma_pow2_positive, satisfy_min_align, satisfy_min_align_spec, Layout};
use crate::pool::{Geometry, SlabPool};
use crate::sized::{Exhausted, SizedSlabAlloc};
use crate::slab::Slab;
use crate::system::SlabSystem;
use vstd::arithmetic::power2::is_pow2;
use vstd::prelude::*;

verus! {

/// The number of objects in a slab.
pub const OBJECTS_PER_SLAB: usize = 8;

/// A slab family.
#[derive(Clone, Copy, Debug, PartialEq, Eq, Structural)]
pub enum Family {
    /// Regions as large as their alignment; the slab is found by masking.
    Aligned,
    /// Page-aligned regions; the slab is found in the map of regions.
    Large,
}

/// An allocator over one of the two slab families.
pub enum Dispatcher {
    Aligned(SizedSlabAlloc<aligned::System>),
    Large(SizedSlabAlloc<large::System>),
}

/// The layout of the objects of an allocator built for `layout` under the
/// policy `init`.
pub open spec fn effective_layout(init: InitSystem, layout: Layout) -> Layout {
    layout.with_min_align(init.spec_min_align())
}

/// Whether an allocator for objects of the effective layout `layout` uses
/// aligned slabs: it does when their backing region needs no stricter
/// alignment than `max_align`.
pub open spec fn uses_aligned(layout: Layout, max_align: usize) -> bool {
    aligned::backing_size_spec(layout, OBJECTS_PER_SLAB) <= max_align
}

/// Whether large slabs can be built for the effective layout `layout` on
/// pages of `page_size` bytes.
pub open spec fn large_fits(layout: Layout, page_size: usize) -> bool {
    &&& is_pow2(page_size as int)
    &&& layout.align() <= page_size
    &&& large::backing_size_spec(layout, OBJECTS_PER_SLAB, page_size) <= usize::MAX
}

/// Whether an allocator can be built: the policy's alignment is a power of
/// two, the backing allocator can align to pages, the effective layout fits
/// in the address space, and one of the families can hold its slabs.
pub open spec fn buildable(init: InitSystem, layout: Layout, page_size: usize, max_align: usize) -> bool {
    let effective = effective_layout(init, layout);
    &&& is_pow2(init.spec_min_align() as int)
    &&& max_align >= page_size
    &&& satisfy_min_align_spec(layout, init.spec_min_align()).0 <= usize::MAX
    &&& uses_aligned(effective, max_align) || large_fits(effective, page_size)
}

/// The geometry of the slabs of an allocator built with these parameters.
pub open spec fn built_geometry(layout: Layout, page_size: usize, max_align: usize) -> Geometry {
    if uses_aligned(layout, max_align) {
        aligned::geometry_spec(
            layout,
            aligned::backing_size_spec(layout, OBJECTS_PER_SLAB) as usize,
            OBJECTS_PER_SLAB,
        )
    } else {
        large::geometry_spec(
            layout,
            large::backing_size_spec(layout, OBJECTS_PER_SLAB, page_size) as usize,
            page_size,
            OBJECTS_PER_SLAB,
        )
    }
}

impl Dispatcher {
    pub open spec fn wf(&self) -> bool {
        match self {
            Dispatcher::Aligned(a) => a.wf(),
            Dispatcher::Large(a) => a.wf(),
        }
    }

    pub open spec fn spec_family(&self) -> Family {
        match self {
            Dispatcher::Aligned(_) => Family::Aligned,
            Dispatcher::Large(_) => Family::Large,
        }
    }

    pub open spec fn pool(&self) -> SlabPool {
        match self {
            Dispatcher::Aligned(a) => a.pool(),
            Dispatcher::Large(a) => a.pool(),
        }
    }

    pub open spec fn freelist(&self) -> Seq<usize> {
        match self {
            Dispatcher::Aligned(a) => a.freelist(),
            Dispatcher::Large(a) => a.freelist(),
        }
    }

    pub open spec fn spec_total_slabs(&self) -> usize {
        match self {
            Dispatcher::Aligned(a) => a.spec_total_slabs(),
            Dispatcher::Large(a) => a.spec_total_slabs(),
        }
    }

    pub open spec fn spec_num_full(&self) -> usize {
        match self {
            Dispatcher::Aligned(a) => a.spec_num_full(),
            Dispatcher::Large(a) => a.spec_num_full(),
        }
    }

    pub open spec fn spec_refcnt(&self) -> usize {
        match self {
            Dispatcher::Aligned(a) => a.spec_refcnt(),
            Dispatcher::Large(a) => a.spec_refcnt(),
        }
    }

    pub open spec fn working_min(&self) -> usize {
        match self {
            Dispatcher::Aligned(a) => a.working_min(),
            Dispatcher::Large(a) => a.working_min(),
        }
    }

    pub open spec fn window_start(&self) -> u64 {
        match self {
            Dispatcher::Aligned(a) => a.window_start(),
            Dispatcher::Large(a) => a.window_start(),
        }
    }

    pub open spec fn spec_layout(&self) -> Layout {
        match self {
            Dispatcher::Aligned(a) => a.spec_layout(),
            Dispatcher::Large(a) => a.spec_layout(),
        }
    }

    pub open spec fn spec_init_system(&self) -> InitSystem {
        match self {
            Dispatcher::Aligned(a) => a.spec_init_system(),
            Dispatcher::Large(a) => a.spec_init_system(),
        }
    }

    /// Whether `other` is over the same family, with the same policy, layout
    /// and slab geometry.
    pub open spec fn same_config(&self, other: &Self) -> bool {
        match (self, other) {
            (Dispatcher::Aligned(a), Dispatcher::Aligned(b)) => a.same_config(b),
            (Dispatcher::Large(a), Dispatcher::Large(b)) => a.same_config(b),
            _ => false,
        }
    }

    /// See [`SizedSlabAlloc::slab_started`].
    pub open spec fn slab_started(pre: &Self, post: &Self, region: Option<usize>, ok: bool) -> bool {
        match (pre, post) {
            (Dispatcher::Aligned(a), Dispatcher::Aligned(b)) => SizedSlabAlloc::slab_started(
                a,
                b,
                region,
                ok,
            ),
            (Dispatcher::Large(a), Dispatcher::Large(b)) => SizedSlabAlloc::slab_started(
                a,
                b,
                region,
                ok,
            ),
            _ => false,
        }
    }

    /// Whether `other` is over the same family and has the same slabs,
    /// freelist, counters and window.
    pub open spec fn same_state(&self, other: &Self) -> bool {
        match (self, other) {
            (Dispatcher::Aligned(a), Dispatcher::Aligned(b)) => a.same_state(b),
            (Dispatcher::Large(a), Dispatcher::Large(b)) => a.same_state(b),
            _ => false,
        }
    }

    /// See [`SizedSlabAlloc::allocated_from_head`].
    pub open spec fn allocated_from_head(pre: &Self, post: &Self, addr: usize, construct: bool) -> bool {
        match (pre, post) {
            (Dispatcher::Aligned(a), Dispatcher::Aligned(b)) => SizedSlabAlloc::allocated_from_head(
                a,
                b,
                addr,
                construct,
            ),
            (Dispatcher::Large(a), Dispatcher::Large(b)) => SizedSlabAlloc::allocated_from_head(
                a,
                b,
                addr,
                construct,
            ),
            _ => false,
        }
    }

    /// See [`SizedSlabAlloc::deallocated`].
    pub open spec fn deallocated(
        pre: &Self,
        post: &Self,
        addr: usize,
        now: u64,
        released: Seq<usize>,
    ) -> bool {
        match (pre, post) {
            (Dispatcher::Aligned(a), Dispatcher::Aligned(b)) => SizedSlabAlloc::deallocated(
                a,
                b,
                addr,
                now,
                released,
            ),
            (Dispatcher::Large(a), Dispatcher::Large(b)) => SizedSlabAlloc::deallocated(
                a,
                b,
                addr,
                now,
                released,
            ),
            _ => false,
        }
    }

    /// See [`SizedSlabAlloc::all_released`].
    pub open spec fn all_released(pre: &Self, post: &Self, released: Seq<usize>) -> bool {
        match (pre, post) {
            (Dispatcher::Aligned(a), Dispatcher::Aligned(b)) => SizedSlabAlloc::all_released(
                a,
                b,
                released,
            ),
            (Dispatcher::Large(a), Dispatcher::Large(b)) => SizedSlabAlloc::all_released(
                a,
                b,
                released,
            ),
            _ => false,
        }
    }

    /// Whether an allocator can be built; see [`buildable`].
    pub fn can_build(init: InitSystem, layout: Layout, page_size: usize, max_align: usize) -> (r:
        bool)
        requires
            layout.wf(),
        ensures
            r == buildable(init, layout, page_size, max_align),
    {
        if !crate::layout::is_power_of_two(init.min_align()) || max_align < page_size {
            return false;
        }
        let effective = match satisfy_min_align(layout, init.min_align()) {
            Some(effective) => effective,
            None => {
                return false;
            },
        };
        proof {
            layout.lemma_with_min_align(init.spec_min_align());
        }
        if let Some(size) = aligned::backing_size_for(&effective, OBJECTS_PER_SLAB) {
            if size <= max_align {
                return true;
            }
        }
        if !crate::layout::is_power_of_two(page_size) || effective.align() > page_size {
            return false;
        }
        proof {
            lemma_pow2_positive(page_size as int);
        }
        large::backing_size_for(&effective, OBJECTS_PER_SLAB, page_size).is_some()
    }

    /// Builds an allocator without slabs for objects of `layout` under the
    /// policy `init`, on pages of `page_size` bytes, for a backing allocator
    /// that can align regions to `max_align`. Aligned slabs are used if
    /// their regions need no stricter alignment than that, large slabs
    /// otherwise. The reclamation window begins at `now`.
    pub fn build(init: InitSystem, layout: Layout, page_size: usize, max_align: usize, now: u64) -> (d:
        Dispatcher)
        requires
            layout.wf(),
            buildable(init, layout, page_size, max_align),
        ensures
            d.wf(),
            d.spec_family() == if uses_aligned(effective_layout(init, layout), max_align) {
                Family::Aligned
            } else {
                Family::Large
            },
            d.spec_layout() == effective_layout(init, layout),
            d.spec_init_system() == init,
            d.pool().spec_geometry() == built_geometry(
                effective_layout(init, layout),
                page_size,
                max_align,
            ),
            d.pool().slabs() == Map::<usize, Slab>::empty(),
            d.pool().outstanding() == Set::<int>::empty(),
            d.pool().spec_color() == 0,
            d.freelist() == Seq::<usize>::empty(),
            d.spec_total_slabs() == 0,
            d.spec_num_full() == 0,
            d.spec_refcnt() == 0,
            d.working_min() == 0,
            d.window_start() == now,
    {
        let effective = satisfy_min_align(layout, init.min_align()).unwrap();
        proof {
            layout.lemma_with_min_align(init.spec_min_align());
        }
        let aligned_size = aligned::backing_size_for(&effective, OBJECTS_PER_SLAB);
        if aligned_size.is_some() && aligned_size.unwrap() <= max_align {
            proof {
                crate::layout::lemma_ceil_pow2(
                    aligned::required_size(effective, OBJECTS_PER_SLAB) as nat,
                );
                aligned::lemma_required_positive(effective, OBJECTS_PER_SLAB);
            }
            let system = aligned::System::new(effective, aligned_size.unwrap(), OBJECTS_PER_SLAB);
            let system = system.unwrap();
            proof {
                system.lemma_pool_wf();
                system.pool().lemma_wf();
            }
            Dispatcher::Aligned(SizedSlabAlloc::new(init, effective, system, now))
        } else {
            proof {
                lemma_pow2_positive(page_size as int);
            }
            let size = large::backing_size_for(&effective, OBJECTS_PER_SLAB, page_size).unwrap();
            proof {
                crate::layout::lemma_round_up(
                    large::required_size(effective, OBJECTS_PER_SLAB),
                    page_size as int,
                );
                large::lemma_required_positive(effective, OBJECTS_PER_SLAB);
            }
            let system = large::System::new(effective, size, page_size, OBJECTS_PER_SLAB);
            let system = system.unwrap();
            proof {
                system.lemma_pool_wf();
                system.pool().lemma_wf();
            }
            Dispatcher::Large(SizedSlabAlloc::new(init, effective, system, now))
        }
    }

    #[verifier::when_used_as_spec(spec_family)]
    pub fn family(&self) -> (f: Family)
        ensures
            f == self.spec_family(),
    {
        match self {
            Dispatcher::Aligned(_) => Family::Aligned,
            Dispatcher::Large(_) => Family::Large,
        }
    }

    #[verifier::when_used_as_spec(spec_layout)]
    pub fn layout(&self) -> (l: Layout)
        ensures
            l == self.spec_layout(),
    {
        match self {
            Dispatcher::Aligned(a) => a.layout(),
            Dispatcher::Large(a) => a.layout(),
        }
    }

    #[verifier::when_used_as_spec(spec_init_system)]
    pub fn init_system(&self) -> (i: InitSystem)
        ensures
            i == self.spec_init_system(),
    {
        match self {
            Dispatcher::Aligned(a) => a.init_system(),
            Dispatcher::Large(a) => a.init_system(),
        }
    }

    /// The size and the alignment of the regions the backing allocator must
    /// supply.
    pub fn region_layout(&self) -> (r: (usize, usize))
        requires
            self.wf(),
        ensures
            r.0 == self.pool().spec_geometry().region_size,
            r.1 == self.pool().spec_geometry().region_align,
    {
        match self {
            Dispatcher::Aligned(a) => a.region_layout(),
            Dispatcher::Large(a) => a.region_layout(),
        }
    }

    #[verifier::when_used_as_spec(spec_total_slabs)]
    pub fn total_slabs(&self) -> (n: usize)
        ensures
            n == self.spec_total_slabs(),
    {
        match self {
            Dispatcher::Aligned(a) => a.total_slabs(),
            Dispatcher::Large(a) => a.total_slabs(),
        }
    }

    #[verifier::when_used_as_spec(spec_num_full)]
    pub fn num_full(&self) -> (n: usize)
        ensures
            n == self.spec_num_full(),
    {
        match self {
            Dispatcher::Aligned(a) => a.num_full(),
            Dispatcher::Large(a) => a.num_full(),
        }
    }

    #[verifier::when_used_as_spec(spec_refcnt)]
    pub fn refcnt(&self) -> (n: usize)
        ensures
            n == self.spec_refcnt(),
    {
        match self {
            Dispatcher::Aligned(a) => a.refcnt(),
            Dispatcher::Large(a) => a.refcnt(),
        }
    }

    /// The number of slabs in the freelist.
    pub fn freelist_len(&self) -> (n: usize)
        requires
            self.wf(),
        ensures
            n == self.freelist().len(),
    {
        match self {
            Dispatcher::Aligned(a) => a.freelist_len(),
            Dispatcher::Large(a) => a.freelist_len(),
        }
    }

    /// Whether a new slab is needed before a slot can be handed out.
    pub fn needs_slab(&self) -> (r: bool)
        requires
            self.wf(),
        ensures
            r == (self.freelist().len() == 0),
    {
        match self {
            Dispatcher::Aligned(a) => a.needs_slab(),
            Dispatcher::Large(a) => a.needs_slab(),
        }
    }

    /// Whether `addr` is a slot that this allocator has handed out.
    pub fn owns(&self, addr: usize) -> (r: bool)
        requires
            self.wf(),
        ensures
            r == self.pool().outstanding().contains(addr as int),
    {
        match self {
            Dispatcher::Aligned(a) => a.owns(addr),
            Dispatcher::Large(a) => a.owns(addr),
        }
    }

    /// Starts a slab in `region`; see [`SizedSlabAlloc::alloc_slab`].
    pub fn alloc_slab(&mut self, region: Option<usize>) -> (ok: bool)
        requires
            old(self).wf(),
        ensures
            final(self).wf(),
            final(self).same_config(old(self)),
            Self::slab_started(old(self), final(self), region, ok),
    {
        match self {
            Dispatcher::Aligned(a) => a.alloc_slab(region),
            Dispatcher::Large(a) => a.alloc_slab(region),
        }
    }

    /// Hands out a slot; see [`SizedSlabAlloc::allocate`].
    pub fn allocate(&mut self) -> (r: Result<(usize, bool), Exhausted>)
        requires
            old(self).wf(),
        ensures
            final(self).wf(),
            final(self).same_config(old(self)),
            r.is_err() <==> old(self).freelist().len() == 0,
            r.is_err() ==> final(self).same_state(old(self)),
            r.is_ok() ==> Self::allocated_from_head(
                old(self),
                final(self),
                r.unwrap().0,
                r.unwrap().1,
            ),
            r.is_ok() ==> r.unwrap().0 > 0 && r.unwrap().0 as int % (old(
                self,
            ).spec_layout().align() as int) == 0,
    {
        match self {
            Dispatcher::Aligned(a) => a.allocate(),
            Dispatcher::Large(a) => a.allocate(),
        }
    }

    /// Takes a slot back; see [`SizedSlabAlloc::dealloc`].
    pub fn dealloc(&mut self, addr: usize, now: u64) -> (released: Vec<usize>)
        requires
            old(self).wf(),
            old(self).pool().outstanding().contains(addr as int),
        ensures
            final(self).wf(),
            final(self).same_config(old(self)),
            Self::deallocated(old(self), final(self), addr, now, released@),
    {
        match self {
            Dispatcher::Aligned(a) => a.dealloc(addr, now),
            Dispatcher::Large(a) => a.dealloc(addr, now),
        }
    }

    /// Gives up every slab; see [`SizedSlabAlloc::release_all`].
    pub fn release_all(&mut self) -> (released: Vec<usize>)
        requires
            old(self).wf(),
            old(self).spec_refcnt() == 0,
        ensures
            final(self).wf(),
            final(self).same_config(old(self)),
            Self::all_released(old(self), final(self), released@),
    {
        match self {
            Dispatcher::Aligned(a) => a.release_all(),
            Dispatcher::Large(a) => a.release_all(),
        }
    }
}

} // verus!
