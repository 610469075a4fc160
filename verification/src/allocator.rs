//! The allocators that clients hold.

use crate::dispatch::{Dispatcher, Family};
use crate::init::InitSystem;
use crate::layout::Layout;
use crate::sized::Exhausted;
use std::marker::PhantomData;
use vstd::prelude::*;

verus! {

/// A slab allocator for objects of type `T`.
pub struct SlabAlloc<T> {
    alloc: Dispatcher,
    _marker: PhantomData<T>,
}

/// A slab allocator for objects of a layout that is chosen at run time.
pub struct UntypedSlabAlloc {
    alloc: Dispatcher,
}

impl<T> SlabAlloc<T> {
    /// Wraps a built allocator.
    pub(crate) fn from_dispatcher(alloc: Dispatcher) -> (a: SlabAlloc<T>)
        ensures
            a.inner() == alloc,
    {
        SlabAlloc { alloc, _marker: PhantomData }
    }

    /// The allocator inside.
    pub closed spec fn inner(&self) -> Dispatcher {
        self.alloc
    }

    /// The allocator's invariant.
    pub open spec fn wf(&self) -> bool {
        self.inner().wf()
    }

    /// The slab family the allocator was built over.
    pub fn family(&self) -> (f: Family)
        ensures
            f == self.inner().spec_family(),
    {
        self.alloc.family()
    }

    /// The size and alignment of the objects handed out.
    pub fn layout(&self) -> (l: Layout)
        ensures
            l == self.inner().spec_layout(),
    {
        self.alloc.layout()
    }

    /// The initialization policy.
    pub fn init_system(&self) -> (i: InitSystem)
        ensures
            i == self.inner().spec_init_system(),
    {
        self.alloc.init_system()
    }

    /// The size and the alignment of the regions the backing allocator must
    /// supply.
    pub fn region_layout(&self) -> (r: (usize, usize))
        requires
            self.wf(),
        ensures
            r.0 == self.inner().pool().spec_geometry().region_size,
            r.1 == self.inner().pool().spec_geometry().region_align,
    {
        self.alloc.region_layout()
    }

    /// The number of slabs the allocator holds.
    pub fn total_slabs(&self) -> (n: usize)
        ensures
            n == self.inner().spec_total_slabs(),
    {
        self.alloc.total_slabs()
    }

    /// The number of slabs all of whose slots are free.
    pub fn num_full(&self) -> (n: usize)
        ensures
            n == self.inner().spec_num_full(),
    {
        self.alloc.num_full()
    }

    /// The number of slots that are handed out.
    pub fn refcnt(&self) -> (n: usize)
        ensures
            n == self.inner().spec_refcnt(),
    {
        self.alloc.refcnt()
    }

    /// The number of slabs that have a free slot.
    pub fn freelist_len(&self) -> (n: usize)
        requires
            self.wf(),
        ensures
            n == self.inner().freelist().len(),
    {
        self.alloc.freelist_len()
    }

    /// Whether a new slab is needed before a slot can be handed out: no slab
    /// has a free slot.
    pub fn needs_slab(&self) -> (r: bool)
        requires
            self.wf(),
        ensures
            r == (self.inner().freelist().len() == 0),
    {
        self.alloc.needs_slab()
    }

    /// Whether `addr` is a slot that this allocator has handed out and not
    /// taken back.
    pub fn owns(&self, addr: usize) -> (r: bool)
        requires
            self.wf(),
        ensures
            r == self.inner().pool().outstanding().contains(addr as int),
    {
        self.alloc.owns(addr)
    }

    /// Starts a slab in `region`, the base address of a fresh region from the
    /// backing allocator, or `None` when it had none to give. Returns whether
    /// a slab was started; see [`crate::sized::SizedSlabAlloc::slab_started`].
    pub fn alloc_slab(&mut self, region: Option<usize>) -> (ok: bool)
        requires
            old(self).wf(),
        ensures
            final(self).wf(),
            final(self).inner().same_config(&old(self).inner()),
            Dispatcher::slab_started(&old(self).inner(), &final(self).inner(), region, ok),
    {
        self.alloc.alloc_slab(region)
    }

    /// Hands out a slot. Returns its address and whether an object must be
    /// constructed in it, or `Exhausted`, with nothing changed, when no slab
    /// has a free slot; see [`crate::sized::SizedSlabAlloc::allocated_from_head`].
    pub fn allocate(&mut self) -> (r: Result<(usize, bool), Exhausted>)
        requires
            old(self).wf(),
        ensures
            final(self).wf(),
            final(self).inner().same_config(&old(self).inner()),
            r.is_err() <==> old(self).inner().freelist().len() == 0,
            r.is_err() ==> final(self).inner().same_state(&old(self).inner()),
            r.is_ok() ==> Dispatcher::allocated_from_head(
                &old(self).inner(),
                &final(self).inner(),
                r.unwrap().0,
                r.unwrap().1,
            ),
            r.is_ok() ==> r.unwrap().0 > 0 && r.unwrap().0 as int % (old(
                self,
            ).inner().spec_layout().align() as int) == 0,
    {
        self.alloc.allocate()
    }

    /// Takes back the slot at `addr`, which this allocator handed out and
    /// which has not come back since, at time `now`. Returns the base
    /// addresses of the regions given up, for the backing allocator to
    /// release; see [`crate::sized::SizedSlabAlloc::deallocated`].
    pub fn dealloc(&mut self, addr: usize, now: u64) -> (released: Vec<usize>)
        requires
            old(self).wf(),
            old(self).inner().pool().outstanding().contains(addr as int),
        ensures
            final(self).wf(),
            final(self).inner().same_config(&old(self).inner()),
            Dispatcher::deallocated(
                &old(self).inner(),
                &final(self).inner(),
                addr,
                now,
                released@,
            ),
    {
        self.alloc.dealloc(addr, now)
    }

    /// Gives up every slab, for an allocator none of whose slots is handed
    /// out. Returns the base addresses of the regions, for the backing
    /// allocator to release; see [`crate::sized::SizedSlabAlloc::all_released`].
    pub fn release_all(&mut self) -> (released: Vec<usize>)
        requires
            old(self).wf(),
            old(self).inner().spec_refcnt() == 0,
        ensures
            final(self).wf(),
            final(self).inner().same_config(&old(self).inner()),
            Dispatcher::all_released(&old(self).inner(), &final(self).inner(), released@),
    {
        self.alloc.release_all()
    }
}

impl UntypedSlabAlloc {
    /// Wraps a built allocator.
    pub(crate) fn from_dispatcher(alloc: Dispatcher) -> (a: UntypedSlabAlloc)
        ensures
            a.inner() == alloc,
    {
        UntypedSlabAlloc { alloc }
    }

    /// The allocator inside.
    pub closed spec fn inner(&self) -> Dispatcher {
        self.alloc
    }

    /// The allocator's invariant.
    pub open spec fn wf(&self) -> bool {
        self.inner().wf()
    }

    /// The slab family the allocator was built over.
    pub fn family(&self) -> (f: Family)
        ensures
            f == self.inner().spec_family(),
    {
        self.alloc.family()
    }

    /// The size and alignment of the objects handed out.
    pub fn layout(&self) -> (l: Layout)
        ensures
            l == self.inner().spec_layout(),
    {
        self.alloc.layout()
    }

    /// The initialization policy.
    pub fn init_system(&self) -> (i: InitSystem)
        ensures
            i == self.inner().spec_init_system(),
    {
        self.alloc.init_system()
    }

    /// The size and the alignment of the regions the backing allocator must
    /// supply.
    pub fn region_layout(&self) -> (r: (usize, usize))
        requires
            self.wf(),
        ensures
            r.0 == self.inner().pool().spec_geometry().region_size,
            r.1 == self.inner().pool().spec_geometry().region_align,
    {
        self.alloc.region_layout()
    }

    /// The number of slabs the allocator holds.
    pub fn total_slabs(&self) -> (n: usize)
        ensures
            n == self.inner().spec_total_slabs(),
    {
        self.alloc.total_slabs()
    }

    /// The number of slabs all of whose slots are free.
    pub fn num_full(&self) -> (n: usize)
        ensures
            n == self.inner().spec_num_full(),
    {
        self.alloc.num_full()
    }

    /// The number of slots that are handed out.
    pub fn refcnt(&self) -> (n: usize)
        ensures
            n == self.inner().spec_refcnt(),
    {
        self.alloc.refcnt()
    }

    /// The number of slabs that have a free slot.
    pub fn freelist_len(&self) -> (n: usize)
        requires
            self.wf(),
        ensures
            n == self.inner().freelist().len(),
    {
        self.alloc.freelist_len()
    }

    /// Whether a new slab is needed before a slot can be handed out: no slab
    /// has a free slot.
    pub fn needs_slab(&self) -> (r: bool)
        requires
            self.wf(),
        ensures
            r == (self.inner().freelist().len() == 0),
    {
        self.alloc.needs_slab()
    }

    /// Whether `addr` is a slot that this allocator has handed out and not
    /// taken back.
    pub fn owns(&self, addr: usize) -> (r: bool)
        requires
            self.wf(),
        ensures
            r == self.inner().pool().outstanding().contains(addr as int),
    {
        self.alloc.owns(addr)
    }

    /// Starts a slab in `region`, the base address of a fresh region from the
    /// backing allocator, or `None` when it had none to give. Returns whether
    /// a slab was started; see [`crate::sized::SizedSlabAlloc::slab_started`].
    pub fn alloc_slab(&mut self, region: Option<usize>) -> (ok: bool)
        requires
            old(self).wf(),
        ensures
            final(self).wf(),
            final(self).inner().same_config(&old(self).inner()),
            Dispatcher::slab_started(&old(self).inner(), &final(self).inner(), region, ok),
    {
        self.alloc.alloc_slab(region)
    }

    /// Hands out a slot. Returns its address and whether an object must be
    /// constructed in it, or `Exhausted`, with nothing changed, when no slab
    /// has a free slot; see [`crate::sized::SizedSlabAlloc::allocated_from_head`].
    pub fn allocate(&mut self) -> (r: Result<(usize, bool), Exhausted>)
        requires
            old(self).wf(),
        ensures
            final(self).wf(),
            final(self).inner().same_config(&old(self).inner()),
            r.is_err() <==> old(self).inner().freelist().len() == 0,
            r.is_err() ==> final(self).inner().same_state(&old(self).inner()),
            r.is_ok() ==> Dispatcher::allocated_from_head(
                &old(self).inner(),
                &final(self).inner(),
                r.unwrap().0,
                r.unwrap().1,
            ),
            r.is_ok() ==> r.unwrap().0 > 0 && r.unwrap().0 as int % (old(
                self,
            ).inner().spec_layout().align() as int) == 0,
    {
        self.alloc.allocate()
    }

    /// Takes back the slot at `addr`, which this allocator handed out and
    /// which has not come back since, at time `now`. Returns the base
    /// addresses of the regions given up, for the backing allocator to
    /// release; see [`crate::sized::SizedSlabAlloc::deallocated`].
    pub fn dealloc(&mut self, addr: usize, now: u64) -> (released: Vec<usize>)
        requires
            old(self).wf(),
            old(self).inner().pool().outstanding().contains(addr as int),
        ensures
            final(self).wf(),
            final(self).inner().same_config(&old(self).inner()),
            Dispatcher::deallocated(
                &old(self).inner(),
                &final(self).inner(),
                addr,
                now,
                released@,
            ),
    {
        self.alloc.dealloc(addr, now)
    }

    /// Gives up every slab, for an allocator none of whose slots is handed
    /// out. Returns the base addresses of the regions, for the backing
    /// allocator to release; see [`crate::sized::SizedSlabAlloc::all_released`].
    pub fn release_all(&mut self) -> (released: Vec<usize>)
        requires
            old(self).wf(),
            old(self).inner().spec_refcnt() == 0,
        ensures
            final(self).wf(),
            final(self).inner().same_config(&old(self).inner()),
            Dispatcher::all_released(&old(self).inner(), &final(self).inner(), released@),
    {
        self.alloc.release_all()
    }
}

} // verus!
