//! What the allocator asks of a slab family.

use crate::pool::SlabPool;
use vstd::prelude::*;

verus! {

/// A slab family: it starts and gives up slabs in backing regions, hands out
/// and takes back their slots, and finds the slab an object belongs to.
///
/// Slabs are named by handles. Every operation is stated over the family's
/// [`SlabPool`].
pub trait SlabSystem: Sized {
    /// The slabs of this family.
    spec fn pool(&self) -> SlabPool;

    /// The family's invariant.
    spec fn wf(&self) -> bool;

    /// The invariant of the family includes that of its pool.
    proof fn lemma_pool_wf(&self)
        requires
            self.wf(),
        ensures
            self.pool().wf(),
    ;

    /// The size and the alignment of the regions the family builds slabs in.
    fn region_layout(&self) -> (r: (usize, usize))
        requires
            self.wf(),
        ensures
            r.0 == self.pool().spec_geometry().region_size,
            r.1 == self.pool().spec_geometry().region_align,
    ;

    /// Starts a slab in `region`, the base address of a fresh backing region
    /// or `None` when the backing allocator had none to give. Returns the new
    /// slab's handle, or `None`, with nothing changed, when there is no region
    /// or the pool does not accept it.
    fn alloc_slab(&mut self, region: Option<usize>) -> (r: Option<usize>)
        requires
            old(self).wf(),
        ensures
            final(self).wf(),
            r.is_some() <==> region.is_some() && old(self).pool().accepts(region.unwrap()),
            match r {
                Some(id) => SlabPool::added(
                    old(self).pool(),
                    final(self).pool(),
                    id,
                    region.unwrap(),
                ),
                None => final(self).pool() == old(self).pool(),
            },
    ;

    /// Gives up the slab `id`, all of whose slots are free, and returns the
    /// base address of its region.
    fn dealloc_slab(&mut self, id: usize) -> (base: usize)
        requires
            old(self).wf(),
            old(self).pool().slabs().contains_key(id),
            old(self).pool().slabs()[id].free().len() == old(
                self,
            ).pool().slabs()[id].spec_capacity(),
        ensures
            final(self).wf(),
            SlabPool::removed(old(self).pool(), final(self).pool(), id, base),
    ;

    /// Whether every slot of the slab `id` is free.
    fn is_full(&self, id: usize) -> (r: bool)
        requires
            self.wf(),
            self.pool().slabs().contains_key(id),
        ensures
            r == (self.pool().slabs()[id].free().len() == self.pool().spec_geometry().capacity),
    ;

    /// Whether no slot of the slab `id` is free.
    fn is_empty(&self, id: usize) -> (r: bool)
        requires
            self.wf(),
            self.pool().slabs().contains_key(id),
        ensures
            r == (self.pool().slabs()[id].free().len() == 0),
    ;

    /// Hands out a slot of the slab `id`. Returns the slot's address and
    /// whether it holds a constructed object.
    fn allocate(&mut self, id: usize) -> (r: (usize, bool))
        requires
            old(self).wf(),
            old(self).pool().slabs().contains_key(id),
            old(self).pool().slabs()[id].free().len() > 0,
        ensures
            final(self).wf(),
            SlabPool::took(old(self).pool(), final(self).pool(), id, r.0, r.1),
    ;

    /// The slab whose backing region holds `addr`.
    fn find(&self, addr: usize) -> (r: Option<usize>)
        requires
            self.wf(),
        ensures
            self.pool().locates(addr, r),
    ;

    /// Whether `addr` is a slot that is handed out.
    fn owns(&self, addr: usize) -> (r: bool)
        requires
            self.wf(),
        ensures
            r == self.pool().outstanding().contains(addr as int),
    ;

    /// Takes back the handed-out slot at `addr` and records whether it holds
    /// a constructed object. Returns the handle of the slot's slab and
    /// whether that slab had no free slot before.
    fn dealloc(&mut self, addr: usize, initialized: bool) -> (r: (usize, bool))
        requires
            old(self).wf(),
            old(self).pool().outstanding().contains(addr as int),
        ensures
            final(self).wf(),
            old(self).pool().held(addr as int, r.0),
            SlabPool::gave_back(old(self).pool(), final(self).pool(), r.0, addr, initialized, r.1),
    ;
}

} // verus!
