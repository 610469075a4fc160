//! The builders that configure and build allocators.

use crate::allocator::{SlabAlloc, UntypedSlabAlloc};
use crate::dispatch::{
    buildable, built_geometry, effective_layout, uses_aligned, Dispatcher, Family,
};
use crate::init::{InitKind, InitSystem};
use crate::layout::{lemma_multiple_at_least, lemma_pow2_positive, Layout};
use crate::page::query_page_size;
use crate::slab::Slab;
use std::marker::PhantomData;
use vstd::prelude::*;

verus! {

/// A builder for [`SlabAlloc`]s.
pub struct SlabAllocBuilder<T> {
    init: InitSystem,
    layout: Layout,
    page_size: usize,
    _marker: PhantomData<T>,
}

/// A builder for [`UntypedSlabAlloc`]s.
pub struct UntypedSlabAllocBuilder {
    init: InitSystem,
    layout: Layout,
    page_size: usize,
}

impl<T> SlabAllocBuilder<T> {
    pub closed spec fn spec_init_system(&self) -> InitSystem {
        self.init
    }

    pub closed spec fn spec_layout(&self) -> Layout {
        self.layout
    }

    pub closed spec fn spec_page_size(&self) -> usize {
        self.page_size
    }

    /// The builder's invariant: its layout is sound.
    pub open spec fn wf(&self) -> bool {
        self.spec_layout().wf()
    }

    /// Whether an allocator can be built for a backing allocator that can
    /// align regions to `max_align`; see [`buildable`].
    pub open spec fn buildable(&self, max_align: usize) -> bool {
        buildable(self.spec_init_system(), self.spec_layout(), self.spec_page_size(), max_align)
    }

    /// Whether `d` is the allocator this builder builds for `max_align` at
    /// time `now`: it has no slabs, its window begins at `now`, and it uses
    /// aligned slabs if their regions need no stricter alignment than
    /// `max_align`, large slabs otherwise.
    pub open spec fn builds(&self, max_align: usize, now: u64, d: Dispatcher) -> bool {
        let layout = effective_layout(self.spec_init_system(), self.spec_layout());
        &&& d.wf()
        &&& d.spec_family() == if uses_aligned(layout, max_align) {
            Family::Aligned
        } else {
            Family::Large
        }
        &&& d.spec_layout() == layout
        &&& d.spec_init_system() == self.spec_init_system()
        &&& d.pool().spec_geometry() == built_geometry(layout, self.spec_page_size(), max_align)
        &&& d.pool().slabs() == Map::<usize, Slab>::empty()
        &&& d.pool().outstanding() == Set::<int>::empty()
        &&& d.pool().spec_color() == 0
        &&& d.freelist() == Seq::<usize>::empty()
        &&& d.spec_total_slabs() == 0
        &&& d.spec_num_full() == 0
        &&& d.spec_refcnt() == 0
        &&& d.working_min() == 0
        &&& d.window_start() == now
    }

    /// The layout as configured so far.
    pub fn layout(&self) -> (l: Layout)
        ensures
            l == self.spec_layout(),
    {
        self.layout
    }

    /// The page size the builder works with.
    pub fn page_size(&self) -> (p: usize)
        ensures
            p == self.spec_page_size(),
    {
        self.page_size
    }

    /// The initialization policy.
    pub fn init_system(&self) -> (i: InitSystem)
        ensures
            i == self.spec_init_system(),
    {
        self.init
    }

    /// Whether `align` is an alignment that [`Self::align`] takes: a power
    /// of two that divides the object size and exceeds neither it nor the
    /// page size.
    pub fn accepts_align(&self, align: usize) -> (r: bool)
        ensures
            r == (Layout::valid(self.spec_layout().size() as int, align as int) && align
                <= self.spec_page_size()),
    {
        Layout::from_size_align(self.layout.size(), align).is_some() && align <= self.page_size
    }

    /// Whether an allocator can be built for a backing allocator that can
    /// align regions to `max_align`.
    pub fn can_build(&self, max_align: usize) -> (r: bool)
        requires
            self.wf(),
        ensures
            r == self.buildable(max_align),
    {
        Dispatcher::can_build(self.init, self.layout, self.page_size, max_align)
    }

    /// Whether `b` is a fresh builder for objects of type `T` under a policy
    /// of kind `kind`.
    pub open spec fn fresh(b: Self, kind: InitKind) -> bool {
        &&& b.wf()
        &&& b.spec_layout().size() == vstd::layout::size_of::<T>()
        &&& b.spec_layout().align() == vstd::layout::align_of::<T>()
        &&& b.spec_init_system().spec_kind() == kind
        &&& b.spec_init_system().spec_type_align() == vstd::layout::align_of::<T>()
    }

    /// A builder for objects of type `T` under a policy of kind `kind`, on
    /// pages of the size the system reports.
    fn typed(kind: InitKind) -> (b: SlabAllocBuilder<T>)
        requires
            vstd::layout::size_of::<T>() > 0,
        ensures
            Self::fresh(b, kind),
    {
        vstd::layout::layout_for_type_is_valid::<T>();
        let size = core::mem::size_of::<T>();
        let align = core::mem::align_of::<T>();
        proof {
            lemma_pow2_positive(align as int);
            lemma_multiple_at_least(size as int, align as int);
        }
        SlabAllocBuilder {
            init: InitSystem::new(kind, align),
            layout: Layout::from_size_align(size, align).unwrap(),
            page_size: query_page_size(),
            _marker: PhantomData,
        }
    }

    /// A builder for an allocator whose new objects are the default value of
    /// `T`.
    pub fn default() -> (b: SlabAllocBuilder<T>)
        requires
            vstd::layout::size_of::<T>() > 0,
        ensures
            Self::fresh(b, InitKind::Default),
    {
        Self::typed(InitKind::Default)
    }

    /// A builder for an allocator whose new objects are made by a function
    /// that returns them. The function stays with the caller, who runs it
    /// whenever the allocator says that an object must be constructed.
    pub fn func() -> (b: SlabAllocBuilder<T>)
        requires
            vstd::layout::size_of::<T>() > 0,
        ensures
            Self::fresh(b, InitKind::Func),
    {
        Self::typed(InitKind::Func)
    }

    /// A builder for an allocator whose new objects are made in place by a
    /// function that gets the slot's address. The function stays with the
    /// caller, who runs it whenever the allocator says that an object must be
    /// constructed.
    pub fn unsafe_func() -> (b: SlabAllocBuilder<T>)
        requires
            vstd::layout::size_of::<T>() > 0,
        ensures
            Self::fresh(b, InitKind::UnsafeFunc),
    {
        Self::typed(InitKind::UnsafeFunc)
    }

    /// A builder for an allocator that hands out raw memory: no object is
    /// ever constructed, and none is kept in a freed slot.
    pub fn no_initialize() -> (b: SlabAllocBuilder<T>)
        requires
            vstd::layout::size_of::<T>() > 0,
        ensures
            Self::fresh(b, InitKind::Nop),
    {
        Self::typed(InitKind::Nop)
    }

    /// Sets the page size the builder works with, in place of the one the
    /// system reports.
    pub fn with_page_size(self, page_size: usize) -> (b: SlabAllocBuilder<T>)
        ensures
            b.spec_init_system() == self.spec_init_system(),
            b.spec_layout() == self.spec_layout(),
            b.spec_page_size() == page_size,
    {
        SlabAllocBuilder {
            init: self.init,
            layout: self.layout,
            page_size,
            _marker: PhantomData,
        }
    }

    /// Raises the alignment the allocator guarantees to `align`, unless it
    /// guarantees a stricter one already. `align` must be a power of two
    /// that divides the object size and exceeds neither it nor the page
    /// size.
    pub fn align(self, align: usize) -> (b: SlabAllocBuilder<T>)
        requires
            self.wf(),
            Layout::valid(self.spec_layout().size() as int, align as int),
            align <= self.spec_page_size(),
        ensures
            b.wf(),
            b.spec_init_system() == self.spec_init_system(),
            b.spec_page_size() == self.spec_page_size(),
            b.spec_layout().size() == self.spec_layout().size(),
            b.spec_layout().align() == if align > self.spec_layout().align() {
                align
            } else {
                self.spec_layout().align()
            },
    {
        SlabAllocBuilder {
            init: self.init,
            layout: self.layout.align_to(align),
            page_size: self.page_size,
            _marker: PhantomData,
        }
    }

    /// Builds an allocator for a backing allocator that can align regions to
    /// `max_align`, which must be at least the page size. The reclamation
    /// window begins at `now`.
    pub fn build_backing(self, max_align: usize, now: u64) -> (a: SlabAlloc<T>)
        requires
            self.wf(),
            self.buildable(max_align),
        ensures
            self.builds(max_align, now, a.inner()),
    {
        SlabAlloc::from_dispatcher(
            Dispatcher::build(self.init, self.layout, self.page_size, max_align, now),
        )
    }

    /// Like [`Self::build_backing`], for an allocator that does not name the
    /// object type.
    pub fn build_untyped_backing(self, max_align: usize, now: u64) -> (a: UntypedSlabAlloc)
        requires
            self.wf(),
            self.buildable(max_align),
        ensures
            self.builds(max_align, now, a.inner()),
    {
        UntypedSlabAlloc::from_dispatcher(
            Dispatcher::build(self.init, self.layout, self.page_size, max_align, now),
        )
    }

    /// Builds an allocator for the heap, which is asked to align regions no
    /// more strictly than to pages. The reclamation window begins at `now`.
    pub fn build(self, now: u64) -> (a: SlabAlloc<T>)
        requires
            self.wf(),
            self.buildable(self.spec_page_size()),
        ensures
            self.builds(self.spec_page_size(), now, a.inner()),
    {
        let max_align = self.page_size;
        self.build_backing(max_align, now)
    }

    /// Like [`Self::build`], for an allocator that does not name the object
    /// type.
    pub fn build_untyped(self, now: u64) -> (a: UntypedSlabAlloc)
        requires
            self.wf(),
            self.buildable(self.spec_page_size()),
        ensures
            self.builds(self.spec_page_size(), now, a.inner()),
    {
        let max_align = self.page_size;
        self.build_untyped_backing(max_align, now)
    }
}

impl UntypedSlabAllocBuilder {
    pub closed spec fn spec_init_system(&self) -> InitSystem {
        self.init
    }

    pub closed spec fn spec_layout(&self) -> Layout {
        self.layout
    }

    pub closed spec fn spec_page_size(&self) -> usize {
        self.page_size
    }

    /// The builder's invariant: its layout is sound.
    pub open spec fn wf(&self) -> bool {
        self.spec_layout().wf()
    }

    /// Whether an allocator can be built for a backing allocator that can
    /// align regions to `max_align`; see [`buildable`].
    pub open spec fn buildable(&self, max_align: usize) -> bool {
        buildable(self.spec_init_system(), self.spec_layout(), self.spec_page_size(), max_align)
    }

    /// Whether `d` is the allocator this builder builds for `max_align` at
    /// time `now`: it has no slabs, its window begins at `now`, and it uses
    /// aligned slabs if their regions need no stricter alignment than
    /// `max_align`, large slabs otherwise.
    pub open spec fn builds(&self, max_align: usize, now: u64, d: Dispatcher) -> bool {
        let layout = effective_layout(self.spec_init_system(), self.spec_layout());
        &&& d.wf()
        &&& d.spec_family() == if uses_aligned(layout, max_align) {
            Family::Aligned
        } else {
            Family::Large
        }
        &&& d.spec_layout() == layout
        &&& d.spec_init_system() == self.spec_init_system()
        &&& d.pool().spec_geometry() == built_geometry(layout, self.spec_page_size(), max_align)
        &&& d.pool().slabs() == Map::<usize, Slab>::empty()
        &&& d.pool().outstanding() == Set::<int>::empty()
        &&& d.pool().spec_color() == 0
        &&& d.freelist() == Seq::<usize>::empty()
        &&& d.spec_total_slabs() == 0
        &&& d.spec_num_full() == 0
        &&& d.spec_refcnt() == 0
        &&& d.working_min() == 0
        &&& d.window_start() == now
    }

    /// The layout as configured so far.
    pub fn layout(&self) -> (l: Layout)
        ensures
            l == self.spec_layout(),
    {
        self.layout
    }

    /// The page size the builder works with.
    pub fn page_size(&self) -> (p: usize)
        ensures
            p == self.spec_page_size(),
    {
        self.page_size
    }

    /// The initialization policy.
    pub fn init_system(&self) -> (i: InitSystem)
        ensures
            i == self.spec_init_system(),
    {
        self.init
    }

    /// Whether `align` is an alignment that [`Self::align`] takes: a power
    /// of two that divides the object size and exceeds neither it nor the
    /// page size.
    pub fn accepts_align(&self, align: usize) -> (r: bool)
        ensures
            r == (Layout::valid(self.spec_layout().size() as int, align as int) && align
                <= self.spec_page_size()),
    {
        Layout::from_size_align(self.layout.size(), align).is_some() && align <= self.page_size
    }

    /// Whether an allocator can be built for a backing allocator that can
    /// align regions to `max_align`.
    pub fn can_build(&self, max_align: usize) -> (r: bool)
        requires
            self.wf(),
        ensures
            r == self.buildable(max_align),
    {
        Dispatcher::can_build(self.init, self.layout, self.page_size, max_align)
    }

    /// Whether `b` is a fresh builder for objects of `layout` under a policy
    /// of kind `kind`. The policy demands no alignment of its own.
    pub open spec fn fresh(b: Self, layout: Layout, kind: InitKind) -> bool {
        &&& b.spec_layout() == layout
        &&& b.spec_init_system().spec_kind() == kind
        &&& b.spec_init_system().spec_type_align() == 1
    }

    /// A builder for an allocator of objects of `layout` that are made in
    /// place by a function that gets the slot's address. The function stays
    /// with the caller, who runs it whenever the allocator says that an
    /// object must be constructed.
    pub fn unsafe_func(layout: Layout) -> (b: UntypedSlabAllocBuilder)
        ensures
            Self::fresh(b, layout, InitKind::UnsafeFunc),
    {
        UntypedSlabAllocBuilder {
            init: InitSystem::new(InitKind::UnsafeFunc, 1),
            layout,
            page_size: query_page_size(),
        }
    }

    /// A builder for an allocator that hands out raw memory of `layout`: no
    /// object is ever constructed, and none is kept in a freed slot.
    pub fn no_initialize(layout: Layout) -> (b: UntypedSlabAllocBuilder)
        ensures
            Self::fresh(b, layout, InitKind::Nop),
    {
        UntypedSlabAllocBuilder {
            init: InitSystem::new(InitKind::Nop, 1),
            layout,
            page_size: query_page_size(),
        }
    }

    /// Sets the page size the builder works with, in place of the one the
    /// system reports.
    pub fn with_page_size(self, page_size: usize) -> (b: UntypedSlabAllocBuilder)
        ensures
            b.spec_init_system() == self.spec_init_system(),
            b.spec_layout() == self.spec_layout(),
            b.spec_page_size() == page_size,
    {
        UntypedSlabAllocBuilder { init: self.init, layout: self.layout, page_size }
    }

    /// Raises the alignment the allocator guarantees to `align`, unless it
    /// guarantees a stricter one already. `align` must be a power of two
    /// that divides the object size and exceeds neither it nor the page
    /// size.
    pub fn align(self, align: usize) -> (b: UntypedSlabAllocBuilder)
        requires
            self.wf(),
            Layout::valid(self.spec_layout().size() as int, align as int),
            align <= self.spec_page_size(),
        ensures
            b.wf(),
            b.spec_init_system() == self.spec_init_system(),
            b.spec_page_size() == self.spec_page_size(),
            b.spec_layout().size() == self.spec_layout().size(),
            b.spec_layout().align() == if align > self.spec_layout().align() {
                align
            } else {
                self.spec_layout().align()
            },
    {
        UntypedSlabAllocBuilder {
            init: self.init,
            layout: self.layout.align_to(align),
            page_size: self.page_size,
        }
    }

    /// Builds an allocator for a backing allocator that can align regions to
    /// `max_align`, which must be at least the page size. The reclamation
    /// window begins at `now`.
    pub fn build_backing(self, max_align: usize, now: u64) -> (a: UntypedSlabAlloc)
        requires
            self.wf(),
            self.buildable(max_align),
        ensures
            self.builds(max_align, now, a.inner()),
    {
        UntypedSlabAlloc::from_dispatcher(
            Dispatcher::build(self.init, self.layout, self.page_size, max_align, now),
        )
    }

    /// Builds an allocator for the heap, which is asked to align regions no
    /// more strictly than to pages. The reclamation window begins at `now`.
    pub fn build(self, now: u64) -> (a: UntypedSlabAlloc)
        requires
            self.wf(),
            self.buildable(self.spec_page_size()),
        ensures
            self.builds(self.spec_page_size(), now, a.inner()),
    {
        let max_align = self.page_size;
        self.build_backing(max_align, now)
    }
}

} // verus!
