//! The slabs of one allocator: their headers, the map from region base
//! addresses to slabs, the coloring state, and the set of slots handed out.

use crate::layout::{lemma_pow2_divides, lemma_pow2_positive, lemma_sum_of_multiples};
use crate::list::lemma_distinct_full;
use crate::ptr_map::PtrMap;
use crate::slab::Slab;
use crate::stack::{full_stack, lemma_full_stack_contains, MAX_OBJECTS_PER_SLAB};
use vstd::arithmetic::power2::is_pow2;
use vstd::prelude::*;

verus! {

/// How the slabs of one allocator are laid out.
#[derive(Clone, Copy, Debug)]
pub struct Geometry {
    /// The size of one object slot.
    pub object_size: usize,
    /// The alignment of every slot; also the step between colors.
    pub align: usize,
    /// The number of slots per slab.
    pub capacity: usize,
    /// The size of a backing region.
    pub region_size: usize,
    /// The alignment of a backing region's base address.
    pub region_align: usize,
    /// The offset of slot 0 from the region base at color 0.
    pub slots_offset: usize,
    /// The largest color offset.
    pub max_color: usize,
}

impl Geometry {
    /// Slots are aligned, regions are aligned at least as strictly, and the
    /// slots fit in the region at every color.
    pub open spec fn wf(&self) -> bool {
        &&& is_pow2(self.align as int)
        &&& is_pow2(self.region_align as int)
        &&& self.align <= self.region_align
        &&& self.object_size > 0
        &&& self.object_size % self.align == 0
        &&& 1 <= self.capacity <= MAX_OBJECTS_PER_SLAB
        &&& self.slots_offset % self.align == 0
        &&& self.max_color % self.align == 0
        &&& self.slots_offset + self.max_color + self.capacity * self.object_size
            <= self.region_size
    }

    /// A sound geometry has a region that holds at least its slots.
    pub proof fn lemma_region_holds_slots(&self)
        requires
            self.wf(),
        ensures
            self.capacity * self.object_size >= self.object_size,
            self.region_size >= self.object_size,
    {
        assert(self.capacity * self.object_size >= self.object_size) by (nonlinear_arith)
            requires
                self.capacity >= 1,
                self.object_size >= 0,
        ;
    }

    /// The color that follows `color` in the round-robin order.
    pub open spec fn next_color(&self, color: usize) -> usize {
        if color + self.align > self.max_color {
            0
        } else {
            (color + self.align) as usize
        }
    }
}

/// The slabs of one allocator.
pub struct SlabPool {
    geometry: Geometry,
    slabs: Vec<Option<Slab>>,
    spare: Vec<usize>,
    map: PtrMap,
    color: usize,
    handed: Ghost<Set<int>>,
}

impl SlabPool {
    pub closed spec fn spec_geometry(&self) -> Geometry {
        self.geometry
    }

    /// The live slabs, by handle.
    pub closed spec fn slabs(&self) -> Map<usize, Slab> {
        Map::new(
            |id: usize| id < self.slabs@.len() && self.slabs@[id as int].is_some(),
            |id: usize| self.slabs@[id as int].unwrap(),
        )
    }

    /// The color offset the next new slab gets.
    pub closed spec fn spec_color(&self) -> usize {
        self.color
    }

    /// The addresses of the slots that are handed out.
    pub closed spec fn outstanding(&self) -> Set<int> {
        self.handed@
    }

    /// Whether `addr` is a handed-out slot of the live slab `id`.
    pub open spec fn held(&self, addr: int, id: usize) -> bool {
        self.slabs().contains_key(id) && self.slabs()[id].allocated(addr)
    }

    /// The live slab that holds the handed-out slot at `addr`.
    pub open spec fn owner(&self, addr: int) -> usize {
        choose|id: usize| #[trigger] self.held(addr, id)
    }

    /// Whether `addr` lies in the backing region of the live slab `id`.
    pub open spec fn in_region(&self, addr: int, id: usize) -> bool {
        &&& self.slabs().contains_key(id)
        &&& self.slabs()[id].spec_base() <= addr < self.slabs()[id].spec_base()
            + self.spec_geometry().region_size
    }

    /// What holds of one live slab: its header is sound, it has the pool's
    /// geometry, and its region is placed as the geometry demands.
    pub open spec fn slab_ok(&self, slab: Slab) -> bool {
        let g = self.spec_geometry();
        &&& slab.wf()
        &&& slab.spec_object_size() == g.object_size
        &&& slab.spec_capacity() == g.capacity
        &&& slab.spec_base() > 0
        &&& slab.spec_base() % g.region_align == 0
        &&& slab.spec_base() + g.region_size <= usize::MAX
        &&& slab.spec_base() + g.slots_offset <= slab.spec_slots_start()
        &&& slab.spec_slots_start() <= slab.spec_base() + g.slots_offset + g.max_color
        &&& slab.spec_slots_start() % g.align == 0
    }

    /// Whether the regions at `a` and `b` do not overlap.
    pub open spec fn apart(&self, a: int, b: int) -> bool {
        a + self.spec_geometry().region_size <= b || b + self.spec_geometry().region_size <= a
    }

    /// Whether a region at `base` can back a new slab: it is non-null,
    /// aligned, ends within the address space, and overlaps no live region.
    pub open spec fn accepts(&self, base: usize) -> bool {
        let g = self.spec_geometry();
        &&& base > 0
        &&& base % g.region_align == 0
        &&& base + g.region_size <= usize::MAX
        &&& forall|id: usize| #[trigger]
            self.slabs().contains_key(id) ==> self.apart(
                self.slabs()[id].spec_base() as int,
                base as int,
            )
    }

    /// `post` is `pre` with nothing changed but, possibly, the slab `id`.
    pub open spec fn same_but(pre: SlabPool, post: SlabPool, id: usize) -> bool {
        &&& post.spec_geometry() == pre.spec_geometry()
        &&& forall|j: usize| #[trigger]
            pre.slabs().contains_key(j) && j != id ==> post.slabs().contains_key(j)
                && post.slabs()[j] == pre.slabs()[j]
    }

    /// `post` is `pre` with a fresh slab `id` started in the region at `base`.
    pub open spec fn added(pre: SlabPool, post: SlabPool, id: usize, base: usize) -> bool {
        let g = pre.spec_geometry();
        &&& Self::same_but(pre, post, id)
        &&& post.spec_color() == g.next_color(pre.spec_color())
        &&& post.outstanding() == pre.outstanding()
        &&& !pre.slabs().contains_key(id)
        &&& post.slabs().dom() == pre.slabs().dom().insert(id)
        &&& post.slabs().dom().len() == pre.slabs().dom().len() + 1
        &&& post.slabs().dom().len() <= usize::MAX
        &&& post.slabs()[id].spec_base() == base
        &&& post.slabs()[id].spec_slots_start() == base + g.slots_offset + pre.spec_color()
        &&& post.slabs()[id].spec_object_size() == g.object_size
        &&& post.slabs()[id].spec_capacity() == g.capacity
        &&& post.slabs()[id].free() == full_stack(g.capacity as nat)
        &&& forall|i: int| !post.slabs()[id].cached(i)
    }

    /// `post` is `pre` without the slab `id`, whose region started at `base`.
    pub open spec fn removed(pre: SlabPool, post: SlabPool, id: usize, base: usize) -> bool {
        &&& Self::same_but(pre, post, id)
        &&& post.spec_color() == pre.spec_color()
        &&& post.outstanding() == pre.outstanding()
        &&& post.slabs() == pre.slabs().remove(id)
        &&& post.slabs().dom().len() == pre.slabs().dom().len() - 1
        &&& base == pre.slabs()[id].spec_base()
    }

    /// `post` is `pre` with the top free slot of slab `id` handed out at
    /// `addr`; `cached` tells whether the slot held a constructed object.
    pub open spec fn took(pre: SlabPool, post: SlabPool, id: usize, addr: usize, cached: bool) -> bool {
        let before = pre.slabs()[id];
        let after = post.slabs()[id];
        let index = before.free().last();
        &&& Self::same_but(pre, post, id)
        &&& post.spec_color() == pre.spec_color()
        &&& post.slabs().dom() == pre.slabs().dom()
        &&& after.spec_base() == before.spec_base()
        &&& after.spec_slots_start() == before.spec_slots_start()
        &&& after.spec_object_size() == before.spec_object_size()
        &&& after.spec_capacity() == before.spec_capacity()
        &&& after.free() == before.free().drop_last()
        &&& forall|i: int| after.cached(i) == (before.cached(i) && i != index)
        &&& index < pre.spec_geometry().capacity
        &&& addr == before.slot_addr(index as int)
        &&& cached == before.cached(index as int)
        &&& !pre.outstanding().contains(addr as int)
        &&& post.outstanding() == pre.outstanding().insert(addr as int)
    }

    /// `post` is `pre` with the slot at `addr` taken back into slab `id`;
    /// `initialized` tells whether it holds a constructed object, `was_empty`
    /// whether the slab had no free slot before.
    pub open spec fn gave_back(
        pre: SlabPool,
        post: SlabPool,
        id: usize,
        addr: usize,
        initialized: bool,
        was_empty: bool,
    ) -> bool {
        let before = pre.slabs()[id];
        let after = post.slabs()[id];
        let index = before.index_of_addr(addr as int).unwrap();
        &&& Self::same_but(pre, post, id)
        &&& post.spec_color() == pre.spec_color()
        &&& post.slabs().dom() == pre.slabs().dom()
        &&& after.spec_base() == before.spec_base()
        &&& after.spec_slots_start() == before.spec_slots_start()
        &&& after.spec_object_size() == before.spec_object_size()
        &&& after.spec_capacity() == before.spec_capacity()
        &&& after.free() == before.free().push(index as usize)
        &&& forall|i: int|
            after.cached(i) == (if i == index {
                initialized
            } else {
                before.cached(i)
            })
        &&& was_empty == (before.free().len() == 0)
        &&& pre.outstanding().contains(addr as int)
        &&& post.outstanding() == pre.outstanding().remove(addr as int)
    }

    /// The representation invariant.
    pub closed spec fn wf(&self) -> bool {
        &&& self.geometry.wf()
        &&& self.map.wf()
        &&& self.color <= self.geometry.max_color
        &&& self.color % self.geometry.align == 0
        &&& forall|id: usize| #[trigger]
            self.slabs().contains_key(id) ==> {
                &&& self.slab_ok(self.slabs()[id])
                &&& self.map@.contains_key(self.slabs()[id].spec_base())
                &&& self.map@[self.slabs()[id].spec_base()] == id
            }
        &&& forall|b: usize| #[trigger]
            self.map@.contains_key(b) ==> self.slabs().contains_key(self.map@[b])
                && self.slabs()[self.map@[b]].spec_base() == b
        &&& forall|a: usize, b: usize|
            #![trigger self.map@.contains_key(a), self.map@.contains_key(b)]
            self.map@.contains_key(a) && self.map@.contains_key(b) && a != b ==> self.apart(
                a as int,
                b as int,
            )
        &&& self.spare@.no_duplicates()
        &&& forall|k: int|
            0 <= k < self.spare@.len() ==> (#[trigger] self.spare@[k]) < self.slabs@.len()
                && self.slabs@[self.spare@[k] as int].is_none()
        &&& self.slabs().dom().finite()
        &&& self.slabs().dom().len() + self.spare@.len() == self.slabs@.len()
        &&& self.handed@.finite()
        &&& forall|a: int| #[trigger]
            self.handed@.contains(a) <==> exists|id: usize| #[trigger] self.held(a, id)
    }

    /// What the invariant says of the public view.
    pub proof fn lemma_wf(&self)
        requires
            self.wf(),
        ensures
            self.spec_geometry().wf(),
            self.spec_color() <= self.spec_geometry().max_color,
            self.spec_color() % self.spec_geometry().align == 0,
            self.slabs().dom().finite(),
            self.outstanding().finite(),
            forall|id: usize| #[trigger]
                self.slabs().contains_key(id) ==> self.slab_ok(self.slabs()[id]),
            forall|i: usize, j: usize|
                #![trigger self.slabs().contains_key(i), self.slabs().contains_key(j)]
                self.slabs().contains_key(i) && self.slabs().contains_key(j) && i != j
                    ==> self.apart(
                    self.slabs()[i].spec_base() as int,
                    self.slabs()[j].spec_base() as int,
                ),
            forall|a: int| #[trigger]
                self.outstanding().contains(a) <==> exists|id: usize| #[trigger] self.held(a, id),
    {
        assert forall|i: usize, j: usize|
            #![trigger self.slabs().contains_key(i), self.slabs().contains_key(j)]
            self.slabs().contains_key(i) && self.slabs().contains_key(j) && i != j implies self.apart(
            self.slabs()[i].spec_base() as int,
            self.slabs()[j].spec_base() as int,
        ) by {
            let a = self.slabs()[i].spec_base();
            let b = self.slabs()[j].spec_base();
            assert(self.map@.contains_key(a) && self.map@.contains_key(b));
            assert(self.map@[a] == i && self.map@[b] == j);
        }
    }

    /// A slot of a live slab lies inside the slab's region and is aligned.
    pub proof fn lemma_slot_in_region(&self, id: usize, i: int)
        requires
            self.wf(),
            self.slabs().contains_key(id),
            0 <= i < self.spec_geometry().capacity,
        ensures
            self.slabs()[id].spec_base() <= self.slabs()[id].slot_addr(i),
            self.slabs()[id].slot_addr(i) + self.spec_geometry().object_size
                <= self.slabs()[id].spec_base() + self.spec_geometry().region_size,
            self.slabs()[id].slot_addr(i) % (self.spec_geometry().align as int) == 0,
            self.in_region(self.slabs()[id].slot_addr(i), id),
    {
        let g = self.geometry;
        let slab = self.slabs()[id];
        assert(self.slab_ok(slab));
        slab.lemma_slots_apart(i, i);
        lemma_pow2_positive(g.align as int);
        let a = g.align as int;
        let size = g.object_size as int;
        // slot_addr(i) = slots_start + i * size, both multiples of the alignment
        vstd::arithmetic::div_mod::lemma_fundamental_div_mod(size, a);
        let q = size / a;
        assert(i * size == a * (i * q)) by (nonlinear_arith)
            requires
                size == a * q,
        ;
        vstd::arithmetic::div_mod::lemma_fundamental_div_mod(slab.spec_slots_start() as int, a);
        let s = slab.spec_slots_start() as int / a;
        assert(slab.slot_addr(i) == a * (s + i * q)) by (nonlinear_arith)
            requires
                slab.slot_addr(i) == slab.spec_slots_start() + i * size,
                slab.spec_slots_start() == a * s,
                i * size == a * (i * q),
        ;
        vstd::arithmetic::div_mod::lemma_mod_multiples_basic(s + i * q, a);
        assert((a * (s + i * q)) % a == 0) by {
            vstd::arithmetic::mul::lemma_mul_is_commutative(a, s + i * q);
        }
    }

    /// A handed-out address belongs to the region of exactly one live slab.
    pub proof fn lemma_held_in_region(&self, addr: int, id: usize)
        requires
            self.wf(),
            self.held(addr, id),
        ensures
            self.in_region(addr, id),
            addr % (self.spec_geometry().align as int) == 0,
            forall|j: usize| self.in_region(addr, j) ==> j == id,
    {
        self.lemma_wf();
        let slab = self.slabs()[id];
        let i = slab.index_of_addr(addr).unwrap();
        slab.lemma_index_of_addr(addr, i);
        self.lemma_slot_in_region(id, i);
        assert forall|j: usize| self.in_region(addr, j) implies j == id by {
            if j != id {
                assert(self.slabs().contains_key(id) && self.slabs().contains_key(j));
            }
        }
    }

    /// Only one live slab holds a given handed-out slot.
    pub proof fn lemma_owner(&self, addr: int, id: usize)
        requires
            self.wf(),
            self.held(addr, id),
        ensures
            self.owner(addr) == id,
    {
        self.lemma_held_in_region(addr, id);
        self.lemma_held_in_region(addr, self.owner(addr));
    }

    /// Every handed-out address is a non-null address aligned to the object
    /// alignment.
    pub proof fn lemma_outstanding_aligned(&self, addr: int)
        requires
            self.wf(),
            self.outstanding().contains(addr),
        ensures
            0 < addr <= usize::MAX,
            addr % (self.spec_geometry().align as int) == 0,
    {
        let id = choose|id: usize| #[trigger] self.held(addr, id);
        self.lemma_held_in_region(addr, id);
        assert(self.slab_ok(self.slabs()[id]));
    }

    /// Two distinct handed-out addresses lie at least one object size apart.
    pub proof fn lemma_outstanding_apart(&self, p: int, q: int)
        requires
            self.wf(),
            self.outstanding().contains(p),
            self.outstanding().contains(q),
            p != q,
        ensures
            p + self.spec_geometry().object_size <= q || q + self.spec_geometry().object_size
                <= p,
    {
        self.lemma_wf();
        let i = choose|i: usize| #[trigger] self.held(p, i);
        let j = choose|j: usize| #[trigger] self.held(q, j);
        let a = self.slabs()[i].index_of_addr(p).unwrap();
        let b = self.slabs()[j].index_of_addr(q).unwrap();
        self.slabs()[i].lemma_index_of_addr(p, a);
        self.slabs()[j].lemma_index_of_addr(q, b);
        self.lemma_slot_in_region(i, a);
        self.lemma_slot_in_region(j, b);
        if i == j {
            self.slabs()[i].lemma_slots_apart(a, b);
            self.slabs()[i].lemma_slots_apart(b, a);
        } else {
            assert(self.slabs().contains_key(i) && self.slabs().contains_key(j));
        }
    }

    /// A handed-out address lies in the region of exactly one live slab.
    pub proof fn lemma_outstanding_one_region(&self, addr: int)
        requires
            self.wf(),
            self.outstanding().contains(addr),
        ensures
            exists|id: usize|
                #![trigger self.in_region(addr, id)]
                self.in_region(addr, id) && forall|j: usize|
                    self.in_region(addr, j) ==> j == id,
    {
        let id = choose|id: usize| #[trigger] self.held(addr, id);
        self.lemma_held_in_region(addr, id);
        assert(self.in_region(addr, id));
    }

    /// No more slots are handed out than there are non-null addresses.
    pub proof fn lemma_outstanding_bounded(&self)
        requires
            self.wf(),
        ensures
            self.outstanding().finite(),
            self.outstanding().len() <= usize::MAX,
    {
        let all = vstd::set_lib::set_int_range(1, usize::MAX + 1);
        vstd::set_lib::lemma_int_range(1, usize::MAX + 1);
        assert forall|a: int| self.outstanding().contains(a) implies all.contains(a) by {
            self.lemma_outstanding_aligned(a);
        }
        vstd::set_lib::lemma_len_subset(self.outstanding(), all);
    }

    /// A live slab with a slot that is not free has that slot handed out.
    pub proof fn lemma_taken_slot_outstanding(&self, id: usize, i: int)
        requires
            self.wf(),
            self.slabs().contains_key(id),
            0 <= i < self.spec_geometry().capacity,
            !self.slabs()[id].free().contains(i as usize),
        ensures
            self.outstanding().contains(self.slabs()[id].slot_addr(i)),
    {
        let slab = self.slabs()[id];
        assert(self.slab_ok(slab));
        slab.lemma_index_of_addr(slab.slot_addr(i), i);
        assert(self.held(slab.slot_addr(i), id));
    }

    /// An empty pool with the given geometry.
    pub fn new(geometry: Geometry) -> (pool: SlabPool)
        requires
            geometry.wf(),
        ensures
            pool.wf(),
            pool.spec_geometry() == geometry,
            pool.slabs() == Map::<usize, Slab>::empty(),
            pool.outstanding() == Set::<int>::empty(),
            pool.spec_color() == 0,
    {
        let pool = SlabPool {
            geometry,
            slabs: Vec::new(),
            spare: Vec::new(),
            map: PtrMap::new(),
            color: 0,
            handed: Ghost(Set::empty()),
        };
        proof {
            lemma_pow2_positive(geometry.align as int);
            assert(pool.slabs() =~= Map::<usize, Slab>::empty());
            assert forall|a: int| #[trigger]
                pool.handed@.contains(a) <==> exists|id: usize| #[trigger] pool.held(a, id) by {
                if exists|id: usize| #[trigger] pool.held(a, id) {
                    let id = choose|id: usize| #[trigger] pool.held(a, id);
                    assert(pool.slabs().contains_key(id));
                }
            }
        }
        pool
    }

    #[verifier::when_used_as_spec(spec_geometry)]
    pub fn geometry(&self) -> (g: Geometry)
        ensures
            g == self.spec_geometry(),
    {
        self.geometry
    }

    /// The live slab whose region starts exactly at `base`.
    pub fn lookup_base(&self, base: usize) -> (r: Option<usize>)
        requires
            self.wf(),
        ensures
            match r {
                Some(id) => self.slabs().contains_key(id) && self.slabs()[id].spec_base() == base,
                None => forall|id: usize| #[trigger]
                    self.slabs().contains_key(id) ==> self.slabs()[id].spec_base() != base,
            },
    {
        self.map.get(base)
    }

    /// The live slab with the highest region base that is not above `addr`.
    pub fn lookup_le(&self, addr: usize) -> (r: Option<usize>)
        requires
            self.wf(),
        ensures
            match r {
                Some(id) => {
                    &&& self.slabs().contains_key(id)
                    &&& self.slabs()[id].spec_base() <= addr
                    &&& forall|j: usize| #[trigger]
                        self.slabs().contains_key(j) && self.slabs()[j].spec_base() <= addr
                            ==> self.slabs()[j].spec_base() <= self.slabs()[id].spec_base()
                },
                None => forall|j: usize| #[trigger]
                    self.slabs().contains_key(j) ==> self.slabs()[j].spec_base() > addr,
            },
    {
        match self.map.find_le(addr) {
            Some((base, id)) => {
                proof {
                    assert forall|j: usize| #[trigger]
                        self.slabs().contains_key(j) && self.slabs()[j].spec_base()
                            <= addr implies self.slabs()[j].spec_base() <= base by {
                        assert(self.map@.contains_key(self.slabs()[j].spec_base()));
                    }
                }
                Some(id)
            },
            None => {
                proof {
                    assert forall|j: usize| #[trigger]
                        self.slabs().contains_key(j) implies self.slabs()[j].spec_base()
                        > addr by {
                        assert(self.map@.contains_key(self.slabs()[j].spec_base()));
                    }
                }
                None
            },
        }
    }

    /// The base address of the live slab `id`.
    pub fn base_of(&self, id: usize) -> (base: usize)
        requires
            self.slabs().contains_key(id),
        ensures
            base == self.slabs()[id].spec_base(),
    {
        match &self.slabs[id] {
            Some(slab) => slab.base(),
            None => 0,
        }
    }

    /// Whether a region at `base` can back a new slab.
    pub fn accepts_region(&self, base: usize) -> (r: bool)
        requires
            self.wf(),
        ensures
            r == self.accepts(base),
    {
        let g = self.geometry;
        proof {
            lemma_pow2_positive(g.region_align as int);
            lemma_pow2_positive(g.align as int);
            self.lemma_wf();
            g.lemma_region_holds_slots();
        }
        if base == 0 || base % g.region_align != 0 || base > usize::MAX - g.region_size {
            return false;
        }
        let last: usize = base + (g.region_size - 1);
        match self.lookup_le(last) {
            Some(id) => {
                let b = self.base_of(id);
                if b >= base || base - b < g.region_size {
                    assert(!self.apart(self.slabs()[id].spec_base() as int, base as int));
                    false
                } else {
                    true
                }
            },
            None => true,
        }
    }

    /// Whether every slot of the live slab `id` is free.
    pub fn is_full(&self, id: usize) -> (r: bool)
        requires
            self.slabs().contains_key(id),
        ensures
            r == (self.slabs()[id].free().len() == self.slabs()[id].spec_capacity()),
    {
        match &self.slabs[id] {
            Some(slab) => slab.is_full(),
            None => false,
        }
    }

    /// Whether no slot of the live slab `id` is free.
    pub fn is_empty(&self, id: usize) -> (r: bool)
        requires
            self.slabs().contains_key(id),
        ensures
            r == (self.slabs()[id].free().len() == 0),
    {
        match &self.slabs[id] {
            Some(slab) => slab.is_empty(),
            None => false,
        }
    }

    /// Whether `addr` is a slot of the live slab `id` that is handed out.
    pub fn is_held(&self, addr: usize, id: usize) -> (r: bool)
        requires
            self.wf(),
        ensures
            r == self.held(addr as int, id),
    {
        if id < self.slabs.len() {
            match &self.slabs[id] {
                Some(slab) => {
                    assert(self.slabs().contains_key(id));
                    assert(self.slab_ok(self.slabs()[id]));
                    slab.is_allocated(addr)
                },
                None => false,
            }
        } else {
            false
        }
    }

    /// Starts a slab in the region at `base`: all of its slots are free, and
    /// slot 0 is shifted by the pool's current color, which then advances.
    /// Returns the new slab's handle.
    pub fn add_slab(&mut self, base: usize) -> (id: usize)
        requires
            old(self).wf(),
            old(self).accepts(base),
        ensures
            final(self).wf(),
            Self::added(*old(self), *final(self), id, base),
    {
        let ghost pre = *self;
        let g = self.geometry;
        let color = self.color;
        proof {
            lemma_pow2_positive(g.align as int);
            lemma_pow2_positive(g.region_align as int);
            g.lemma_region_holds_slots();
        }
        let slots_start: usize = base + g.slots_offset + color;
        let slab = Slab::new(base, slots_start, g.object_size, g.capacity);
        let ghost fresh = slab;
        proof {
            // the first slot is aligned: the base, the offset and the color all are
            lemma_pow2_divides(g.align as int, g.region_align as int, base as int);
            let a = g.align as int;
            lemma_sum_of_multiples(base as int, g.slots_offset as int, a);
            lemma_sum_of_multiples(base + g.slots_offset, color as int, a);
            vstd::arithmetic::div_mod::lemma_mod_self_0(a);
            lemma_sum_of_multiples(color as int, a, a);
            assert(pre.slab_ok(fresh));
            assert(!pre.map@.contains_key(base)) by {
                if pre.map@.contains_key(base) {
                    let j = pre.map@[base];
                    assert(pre.slabs().contains_key(j));
                    assert(pre.apart(pre.slabs()[j].spec_base() as int, base as int));
                }
            }
        }
        let id: usize = if self.spare.len() > 0 {
            let i = self.spare.pop().unwrap();
            assert(i == pre.spare@[pre.spare@.len() - 1]);
            self.slabs.set(i, Some(slab));
            i
        } else {
            self.slabs.push(Some(slab));
            self.slabs.len() - 1
        };
        self.map.insert(base, id);
        proof {
            assert(self.slabs@.len() == self.slabs.len());
        }
        self.color = if g.align > g.max_color || color > g.max_color - g.align {
            0
        } else {
            color + g.align
        };
        proof {
            assert(!pre.slabs().contains_key(id));
            assert(self.slabs().dom() =~= pre.slabs().dom().insert(id));
            assert forall|j: usize| #[trigger] pre.slabs().contains_key(j) implies self.slabs()[j]
                == pre.slabs()[j] by {}
            assert(self.slabs()[id] == fresh);
            assert forall|j: usize| #[trigger] self.slabs().contains_key(j) implies {
                &&& self.slab_ok(self.slabs()[j])
                &&& self.map@.contains_key(self.slabs()[j].spec_base())
                &&& self.map@[self.slabs()[j].spec_base()] == j
            } by {
                if j != id {
                    assert(pre.slabs().contains_key(j));
                    assert(pre.slab_ok(pre.slabs()[j]));
                    assert(pre.apart(pre.slabs()[j].spec_base() as int, base as int));
                }
            }
            assert forall|b: usize| #[trigger]
                self.map@.contains_key(b) implies self.slabs().contains_key(self.map@[b])
                && self.slabs()[self.map@[b]].spec_base() == b by {
                if b != base {
                    assert(pre.map@.contains_key(b));
                }
            }
            assert forall|a: usize, b: usize|
                #![trigger self.map@.contains_key(a), self.map@.contains_key(b)]
                self.map@.contains_key(a) && self.map@.contains_key(b) && a != b implies self.apart(
                a as int,
                b as int,
            ) by {
                if a != base && b != base {
                    assert(pre.map@.contains_key(a) && pre.map@.contains_key(b));
                } else if a == base {
                    assert(pre.map@.contains_key(b));
                    assert(pre.slabs().contains_key(pre.map@[b]));
                } else {
                    assert(pre.map@.contains_key(a));
                    assert(pre.slabs().contains_key(pre.map@[a]));
                }
            }
            assert forall|k: int| 0 <= k < self.spare@.len() implies (#[trigger] self.spare@[k])
                < self.slabs@.len() && self.slabs@[self.spare@[k] as int].is_none() by {
                assert(self.spare@[k] == pre.spare@[k]);
                if pre.spare@.len() > 0 {
                    assert(pre.spare@[k] != pre.spare@[pre.spare@.len() - 1]);
                }
            }
            assert forall|a: int| #[trigger]
                self.handed@.contains(a) <==> exists|j: usize| #[trigger] self.held(a, j) by {
                if self.handed@.contains(a) {
                    let j = choose|j: usize| #[trigger] pre.held(a, j);
                    assert(self.held(a, j));
                }
                if exists|j: usize| #[trigger] self.held(a, j) {
                    let j = choose|j: usize| #[trigger] self.held(a, j);
                    if j == id {
                        let i = fresh.index_of_addr(a).unwrap();
                        lemma_full_stack_contains(g.capacity as nat, i as usize);
                    } else {
                        assert(pre.held(a, j));
                    }
                }
            }
        }
        id
    }

    /// Gives up the live slab `id`, all of whose slots are free. Returns the
    /// base address of its region.
    pub fn remove_slab(&mut self, id: usize) -> (base: usize)
        requires
            old(self).wf(),
            old(self).slabs().contains_key(id),
            old(self).slabs()[id].free().len() == old(self).slabs()[id].spec_capacity(),
        ensures
            final(self).wf(),
            Self::removed(*old(self), *final(self), id, base),
    {
        let ghost pre = *self;
        let base = self.base_of(id);
        proof {
            assert(pre.slab_ok(pre.slabs()[id]));
            if pre.spare@.contains(id) {
                let k = choose|k: int| 0 <= k < pre.spare@.len() && pre.spare@[k] == id;
                assert(pre.slabs@[pre.spare@[k] as int].is_none());
            }
        }
        self.slabs.set(id, None);
        self.spare.push(id);
        self.map.remove(base);
        proof {
            assert(self.slabs() =~= pre.slabs().remove(id));
            assert forall|j: usize| #[trigger] self.slabs().contains_key(j) implies {
                &&& self.slab_ok(self.slabs()[j])
                &&& self.map@.contains_key(self.slabs()[j].spec_base())
                &&& self.map@[self.slabs()[j].spec_base()] == j
            } by {
                assert(pre.slabs().contains_key(j));
                assert(pre.slab_ok(pre.slabs()[j]));
                assert(pre.map@[pre.slabs()[j].spec_base()] == j);
            }
            assert forall|b: usize| #[trigger]
                self.map@.contains_key(b) implies self.slabs().contains_key(self.map@[b])
                && self.slabs()[self.map@[b]].spec_base() == b by {
                assert(pre.map@.contains_key(b));
            }
            assert forall|a: usize, b: usize|
                #![trigger self.map@.contains_key(a), self.map@.contains_key(b)]
                self.map@.contains_key(a) && self.map@.contains_key(b) && a != b implies self.apart(
                a as int,
                b as int,
            ) by {
                assert(pre.map@.contains_key(a) && pre.map@.contains_key(b));
            }
            assert forall|i: int, j: int|
                0 <= i < self.spare@.len() && 0 <= j < self.spare@.len() && i != j implies self.spare@[i]
                != self.spare@[j] by {
                if i < pre.spare@.len() {
                    assert(pre.spare@.contains(self.spare@[i]));
                }
                if j < pre.spare@.len() {
                    assert(pre.spare@.contains(self.spare@[j]));
                }
            }
            assert forall|a: int| #[trigger]
                self.handed@.contains(a) <==> exists|j: usize| #[trigger] self.held(a, j) by {
                if self.handed@.contains(a) {
                    let j = choose|j: usize| #[trigger] pre.held(a, j);
                    if j == id {
                        let slab = pre.slabs()[id];
                        slab.lemma_wf();
                        let i = slab.index_of_addr(a).unwrap();
                        slab.lemma_index_of_addr(a, i);
                        lemma_distinct_full(
                            slab.free(),
                            slab.spec_capacity() as nat,
                            i as usize,
                        );
                    }
                    assert(self.held(a, j));
                }
                if exists|j: usize| #[trigger] self.held(a, j) {
                    let j = choose|j: usize| #[trigger] self.held(a, j);
                    assert(pre.held(a, j));
                }
            }
        }
        base
    }

    /// Hands out the slot on top of the free stack of the live slab `id`.
    /// Returns the slot's address and whether it holds a constructed object.
    pub fn allocate_from(&mut self, id: usize) -> (r: (usize, bool))
        requires
            old(self).wf(),
            old(self).slabs().contains_key(id),
            old(self).slabs()[id].free().len() > 0,
        ensures
            final(self).wf(),
            Self::took(*old(self), *final(self), id, r.0, r.1),
    {
        let ghost pre = *self;
        proof {
            assert(pre.slab_ok(pre.slabs()[id]));
        }
        let r = match &mut self.slabs[id] {
            Some(slab) => slab.allocate(),
            None => (0, false),
        };
        self.handed = Ghost(self.handed@.insert(r.0 as int));
        proof {
            let before = pre.slabs()[id];
            let after = self.slabs()[id];
            let last = before.free().last();
            let addr = r.0 as int;
            before.lemma_wf();
            before.lemma_index_of_addr(addr, last as int);
            pre.lemma_slot_in_region(id, last as int);
            assert(self.slabs().dom() =~= pre.slabs().dom());
            assert forall|j: usize| #[trigger] self.slabs().contains_key(j) implies {
                &&& self.slab_ok(self.slabs()[j])
                &&& self.map@.contains_key(self.slabs()[j].spec_base())
                &&& self.map@[self.slabs()[j].spec_base()] == j
            } by {
                assert(pre.slabs().contains_key(j));
                assert(pre.slab_ok(pre.slabs()[j]));
            }
            assert forall|b: usize| #[trigger]
                self.map@.contains_key(b) implies self.slabs().contains_key(self.map@[b])
                && self.slabs()[self.map@[b]].spec_base() == b by {
                assert(pre.slabs().contains_key(pre.map@[b]));
            }
            assert forall|k: int| 0 <= k < self.spare@.len() implies (#[trigger] self.spare@[k])
                < self.slabs@.len() && self.slabs@[self.spare@[k] as int].is_none() by {
                assert(pre.slabs@[pre.spare@[k] as int].is_none());
            }
            assert(!pre.handed@.contains(addr)) by {
                if pre.handed@.contains(addr) {
                    let j = choose|j: usize| #[trigger] pre.held(addr, j);
                    if j == id {
                        assert(before.free()[before.free().len() - 1] == last);
                    } else {
                        pre.lemma_held_in_region(addr, j);
                        assert(pre.in_region(addr, id));
                    }
                }
            }
            assert forall|a: int| #[trigger]
                self.handed@.contains(a) <==> exists|j: usize| #[trigger] self.held(a, j) by {
                if self.handed@.contains(a) {
                    if a == addr {
                        assert(after.index_of_addr(a) == before.index_of_addr(a));
                        assert(self.held(a, id));
                    } else {
                        let j = choose|j: usize| #[trigger] pre.held(a, j);
                        if j == id {
                            let i = before.index_of_addr(a).unwrap();
                            assert(after.index_of_addr(a) == Some(i));
                            if after.free().contains(i as usize) {
                                let k = choose|k: int|
                                    0 <= k < after.free().len() && after.free()[k] == i as usize;
                                assert(before.free()[k] == i as usize);
                            }
                        }
                        assert(self.held(a, j));
                    }
                }
                if exists|j: usize| #[trigger] self.held(a, j) {
                    let j = choose|j: usize| #[trigger] self.held(a, j);
                    if j != id {
                        assert(pre.held(a, j));
                    } else {
                        let i = after.index_of_addr(a).unwrap();
                        assert(before.index_of_addr(a) == Some(i));
                        if i == last {
                            before.lemma_index_of_addr(a, i);
                        } else {
                            if before.free().contains(i as usize) {
                                let k = choose|k: int|
                                    0 <= k < before.free().len() && before.free()[k] == i as usize;
                                assert(after.free()[k] == i as usize);
                            }
                            assert(pre.held(a, id));
                        }
                    }
                }
            }
        }
        r
    }

    /// Takes the handed-out slot at `addr` back into the live slab `id` and
    /// records whether it holds a constructed object. Returns whether the
    /// slab had no free slot before.
    pub fn dealloc_to(&mut self, id: usize, addr: usize, initialized: bool) -> (was_empty: bool)
        requires
            old(self).wf(),
            old(self).held(addr as int, id),
        ensures
            final(self).wf(),
            Self::gave_back(*old(self), *final(self), id, addr, initialized, was_empty),
    {
        let ghost pre = *self;
        proof {
            assert(pre.slab_ok(pre.slabs()[id]));
            assert(pre.handed@.contains(addr as int));
        }
        let was_empty = match &mut self.slabs[id] {
            Some(slab) => {
                let index = slab.slot_index(addr).unwrap();
                slab.dealloc(index, initialized)
            },
            None => false,
        };
        self.handed = Ghost(self.handed@.remove(addr as int));
        proof {
            let before = pre.slabs()[id];
            let after = self.slabs()[id];
            let index = before.index_of_addr(addr as int).unwrap();
            before.lemma_wf();
            before.lemma_index_of_addr(addr as int, index);
            assert(self.slabs().dom() =~= pre.slabs().dom());
            assert forall|j: usize| #[trigger] self.slabs().contains_key(j) implies {
                &&& self.slab_ok(self.slabs()[j])
                &&& self.map@.contains_key(self.slabs()[j].spec_base())
                &&& self.map@[self.slabs()[j].spec_base()] == j
            } by {
                assert(pre.slabs().contains_key(j));
                assert(pre.slab_ok(pre.slabs()[j]));
            }
            assert forall|b: usize| #[trigger]
                self.map@.contains_key(b) implies self.slabs().contains_key(self.map@[b])
                && self.slabs()[self.map@[b]].spec_base() == b by {
                assert(pre.slabs().contains_key(pre.map@[b]));
            }
            assert forall|k: int| 0 <= k < self.spare@.len() implies (#[trigger] self.spare@[k])
                < self.slabs@.len() && self.slabs@[self.spare@[k] as int].is_none() by {
                assert(pre.slabs@[pre.spare@[k] as int].is_none());
            }
            assert forall|a: int| #[trigger]
                self.handed@.contains(a) <==> exists|j: usize| #[trigger] self.held(a, j) by {
                if self.handed@.contains(a) {
                    let j = choose|j: usize| #[trigger] pre.held(a, j);
                    if j == id {
                        let i = before.index_of_addr(a).unwrap();
                        assert(after.index_of_addr(a) == Some(i));
                        before.lemma_index_of_addr(a, i);
                        assert(i != index);
                        if after.free().contains(i as usize) {
                            let k = choose|k: int|
                                0 <= k < after.free().len() && after.free()[k] == i as usize;
                            assert(before.free()[k] == i as usize);
                        }
                    }
                    assert(self.held(a, j));
                }
                if exists|j: usize| #[trigger] self.held(a, j) {
                    let j = choose|j: usize| #[trigger] self.held(a, j);
                    if j != id {
                        assert(pre.held(a, j));
                        if a == addr {
                            pre.lemma_held_in_region(a, j);
                            pre.lemma_held_in_region(a, id);
                        }
                    } else {
                        let i = after.index_of_addr(a).unwrap();
                        assert(before.index_of_addr(a) == Some(i));
                        if i == index {
                            assert(after.free()[before.free().len() as int] == index as usize);
                        } else {
                            before.lemma_index_of_addr(a, i);
                            if before.free().contains(i as usize) {
                                let k = choose|k: int|
                                    0 <= k < before.free().len() && before.free()[k] == i as usize;
                                assert(after.free()[k] == i as usize);
                            }
                            assert(pre.held(a, id));
                        }
                    }
                }
            }
        }
        was_empty
    }

    /// Whether `found` is the answer to "which live slab's region holds
    /// `addr`?": that slab's handle, or `None` when no region holds it.
    pub open spec fn locates(&self, addr: usize, found: Option<usize>) -> bool {
        match found {
            Some(id) => self.in_region(addr as int, id),
            None => forall|j: usize| !#[trigger] self.in_region(addr as int, j),
        }
    }

    /// Whether `addr` is a slot that is handed out, given the slab whose
    /// region holds it.
    pub fn owns_found(&self, addr: usize, found: Option<usize>) -> (r: bool)
        requires
            self.wf(),
            self.locates(addr, found),
        ensures
            r == self.outstanding().contains(addr as int),
    {
        proof {
            if self.handed@.contains(addr as int) {
                let j = choose|j: usize| #[trigger] self.held(addr as int, j);
                self.lemma_held_in_region(addr as int, j);
                assert(self.in_region(addr as int, j));
            }
        }
        match found {
            Some(id) => {
                let r = self.is_held(addr, id);
                proof {
                    if self.handed@.contains(addr as int) {
                        let j = choose|j: usize| #[trigger] self.held(addr as int, j);
                        self.lemma_held_in_region(addr as int, j);
                    }
                }
                r
            },
            None => false,
        }
    }

    /// Takes the handed-out slot at `addr` back, given the slab whose region
    /// holds it. Returns that slab's handle and whether it had no free slot
    /// before.
    pub fn dealloc_found(&mut self, addr: usize, found: Option<usize>, initialized: bool) -> (r: (
        usize,
        bool,
    ))
        requires
            old(self).wf(),
            old(self).locates(addr, found),
            old(self).outstanding().contains(addr as int),
        ensures
            final(self).wf(),
            old(self).held(addr as int, r.0),
            Self::gave_back(*old(self), *final(self), r.0, addr, initialized, r.1),
    {
        proof {
            let j = choose|j: usize| #[trigger] self.held(addr as int, j);
            self.lemma_held_in_region(addr as int, j);
            assert(self.in_region(addr as int, j));
        }
        let id = found.unwrap();
        let was_empty = self.dealloc_to(id, addr, initialized);
        (id, was_empty)
    }
}

} // verus!
