//! The header of one slab: where its slots lie, which of them are free, and
//! which free slots still hold a constructed object.

use crate::stack::{full_stack, SlotStack, MAX_OBJECTS_PER_SLAB};
use vstd::prelude::*;

verus! {

/// Whether bit `i` of `bits` is set.
pub open spec fn bit(bits: u64, i: u64) -> bool {
    (bits >> i) & 1 == 1
}

proof fn lemma_bit_zero(i: u64)
    by (bit_vector)
    requires
        i < 64,
    ensures
        !bit(0, i),
{
}

proof fn lemma_bit_set(bits: u64, i: u64, j: u64)
    by (bit_vector)
    requires
        i < 64,
        j < 64,
    ensures
        bit(bits | (1u64 << i), j) == (i == j || bit(bits, j)),
{
}

proof fn lemma_bit_clear(bits: u64, i: u64, j: u64)
    by (bit_vector)
    requires
        i < 64,
        j < 64,
    ensures
        bit(bits & !(1u64 << i), j) == (i != j && bit(bits, j)),
{
}

/// `i * size <= n * size` for `i <= n`, and slots at distinct indices are at
/// least `size` apart.
pub proof fn lemma_slot_offsets(i: int, n: int, size: int)
    requires
        0 <= i <= n,
        0 <= size,
    ensures
        0 <= i * size <= n * size,
        i < n ==> (i + 1) * size <= n * size,
        (i + 1) * size == i * size + size,
{
    assert(0 <= i * size <= n * size) by (nonlinear_arith)
        requires
            0 <= i <= n,
            0 <= size,
    ;
    assert((i + 1) * size == i * size + size) by (nonlinear_arith);
    if i < n {
        assert((i + 1) * size <= n * size) by (nonlinear_arith)
            requires
                0 <= i + 1 <= n,
                0 <= size,
        ;
    }
}

/// The header of one slab.
pub struct Slab {
    base: usize,
    slots_start: usize,
    object_size: usize,
    stack: SlotStack,
    init: u64,
}

impl Slab {
    /// The base address of the slab's backing region.
    pub closed spec fn spec_base(&self) -> usize {
        self.base
    }

    /// The address of slot 0.
    pub closed spec fn spec_slots_start(&self) -> usize {
        self.slots_start
    }

    /// The size of one slot.
    pub closed spec fn spec_object_size(&self) -> usize {
        self.object_size
    }

    /// The number of slots.
    pub closed spec fn spec_capacity(&self) -> usize {
        self.stack.spec_capacity()
    }

    /// The free slot indices; the last one is handed out next.
    pub closed spec fn free(&self) -> Seq<usize> {
        self.stack@
    }

    /// Whether slot `i` holds an object that was constructed before the slot
    /// was last freed.
    pub closed spec fn cached(&self, i: int) -> bool {
        0 <= i < 64 && bit(self.init, i as u64)
    }

    /// The address of slot `i`.
    pub open spec fn slot_addr(&self, i: int) -> int {
        self.spec_slots_start() + i * self.spec_object_size()
    }

    /// The first address past the last slot.
    pub open spec fn slots_end(&self) -> int {
        self.slot_addr(self.spec_capacity() as int)
    }

    /// The index of the slot that starts at `addr`, if one does.
    pub open spec fn index_of_addr(&self, addr: int) -> Option<int> {
        let off = addr - self.spec_slots_start();
        let size = self.spec_object_size() as int;
        if off >= 0 && off % size == 0 && off / size < self.spec_capacity() {
            Some(off / size)
        } else {
            None
        }
    }

    /// Whether `addr` is the address of a slot that is handed out.
    pub open spec fn allocated(&self, addr: int) -> bool {
        match self.index_of_addr(addr) {
            Some(i) => !self.free().contains(i as usize),
            None => false,
        }
    }

    /// The invariant of a slab header.
    pub closed spec fn wf(&self) -> bool {
        &&& self.stack.wf()
        &&& self.object_size > 0
        &&& self.base <= self.slots_start
        &&& self.slots_end() <= usize::MAX
        &&& forall|i: int| #[trigger]
            self.cached(i) ==> i < self.spec_capacity() && self.free().contains(i as usize)
    }

    /// What the invariant says, in terms of the public accessors.
    pub proof fn lemma_wf(&self)
        requires
            self.wf(),
        ensures
            1 <= self.spec_capacity() <= MAX_OBJECTS_PER_SLAB,
            self.spec_object_size() > 0,
            self.spec_base() <= self.spec_slots_start(),
            self.slots_end() <= usize::MAX,
            self.free().no_duplicates(),
            self.free().len() <= self.spec_capacity(),
            forall|k: int|
                0 <= k < self.free().len() ==> #[trigger] self.free()[k] < self.spec_capacity(),
            forall|i: int| #[trigger]
                self.cached(i) ==> 0 <= i < self.spec_capacity() && self.free().contains(
                    i as usize,
                ),
    {
        self.stack.lemma_wf();
    }

    /// `index_of_addr` inverts `slot_addr`: an address has index `i` exactly
    /// when it is the address of slot `i`, for `i` below the capacity.
    pub proof fn lemma_index_of_addr(&self, addr: int, i: int)
        requires
            self.wf(),
        ensures
            self.index_of_addr(addr) == Some(i) <==> 0 <= i < self.spec_capacity() && addr
                == self.slot_addr(i),
    {
        let size = self.object_size as int;
        let off = addr - self.slots_start;
        if 0 <= i < self.spec_capacity() && addr == self.slot_addr(i) {
            assert(off == i * size);
            assert(off >= 0) by (nonlinear_arith)
                requires
                    off == i * size,
                    i >= 0,
                    size > 0,
            ;
            vstd::arithmetic::div_mod::lemma_fundamental_div_mod_converse(off, size, i, 0);
        }
        if self.index_of_addr(addr) == Some(i) {
            vstd::arithmetic::div_mod::lemma_fundamental_div_mod(off, size);
            assert(off == size * (off / size));
            assert(size * i == i * size) by (nonlinear_arith);
            assert(off / size >= 0) by (nonlinear_arith)
                requires
                    off >= 0,
                    size > 0,
            ;
        }
    }

    /// Two slots of one slab that differ lie at least one object size apart,
    /// and every slot lies between the start of slot 0 and `slots_end`.
    pub proof fn lemma_slots_apart(&self, i: int, j: int)
        requires
            self.wf(),
            0 <= i < self.spec_capacity(),
            0 <= j < self.spec_capacity(),
        ensures
            self.spec_slots_start() <= self.slot_addr(i),
            self.slot_addr(i) + self.spec_object_size() <= self.slots_end(),
            i < j ==> self.slot_addr(i) + self.spec_object_size() <= self.slot_addr(j),
    {
        let size = self.object_size as int;
        lemma_slot_offsets(i, self.spec_capacity() as int - 1, size);
        lemma_slot_offsets(self.spec_capacity() as int - 1, self.spec_capacity() as int, size);
        if i < j {
            lemma_slot_offsets(i + 1, j, size);
            lemma_slot_offsets(i, j, size);
        }
    }

    /// The header of a fresh slab whose region starts at `base` and whose
    /// slot 0 lies at `slots_start`: every slot free, none constructed.
    pub fn new(base: usize, slots_start: usize, object_size: usize, capacity: usize) -> (slab: Slab)
        requires
            1 <= capacity <= MAX_OBJECTS_PER_SLAB,
            object_size > 0,
            base <= slots_start,
            slots_start + capacity * object_size <= usize::MAX,
        ensures
            slab.wf(),
            slab.spec_base() == base,
            slab.spec_slots_start() == slots_start,
            slab.spec_object_size() == object_size,
            slab.spec_capacity() == capacity,
            slab.free() == full_stack(capacity as nat),
            forall|i: int| !slab.cached(i),
    {
        let slab = Slab {
            base,
            slots_start,
            object_size,
            stack: SlotStack::new_full(capacity),
            init: 0,
        };
        proof {
            assert forall|i: int| !slab.cached(i) by {
                if 0 <= i < 64 {
                    lemma_bit_zero(i as u64);
                }
            }
        }
        slab
    }

    #[verifier::when_used_as_spec(spec_base)]
    pub fn base(&self) -> (b: usize)
        ensures
            b == self.spec_base(),
    {
        self.base
    }

    #[verifier::when_used_as_spec(spec_slots_start)]
    pub fn slots_start(&self) -> (a: usize)
        ensures
            a == self.spec_slots_start(),
    {
        self.slots_start
    }

    #[verifier::when_used_as_spec(spec_object_size)]
    pub fn object_size(&self) -> (s: usize)
        ensures
            s == self.spec_object_size(),
    {
        self.object_size
    }

    #[verifier::when_used_as_spec(spec_capacity)]
    pub fn capacity(&self) -> (n: usize)
        ensures
            n == self.spec_capacity(),
    {
        self.stack.capacity()
    }

    /// The number of free slots.
    pub fn free_count(&self) -> (n: usize)
        ensures
            n == self.free().len(),
    {
        self.stack.len()
    }

    /// Whether every slot is free.
    pub fn is_full(&self) -> (r: bool)
        ensures
            r == (self.free().len() == self.spec_capacity()),
    {
        self.stack.len() == self.stack.capacity()
    }

    /// Whether no slot is free.
    pub fn is_empty(&self) -> (r: bool)
        ensures
            r == (self.free().len() == 0),
    {
        self.stack.len() == 0
    }

    /// The index of the slot that starts at `addr`, if one does.
    pub fn slot_index(&self, addr: usize) -> (r: Option<usize>)
        requires
            self.wf(),
        ensures
            match r {
                Some(i) => self.index_of_addr(addr as int) == Some(i as int),
                None => self.index_of_addr(addr as int).is_none(),
            },
    {
        if addr < self.slots_start {
            return None;
        }
        let off: usize = addr - self.slots_start;
        if off % self.object_size != 0 {
            return None;
        }
        let i: usize = off / self.object_size;
        if i < self.stack.capacity() {
            Some(i)
        } else {
            None
        }
    }

    /// Whether `addr` is the address of a slot that is handed out.
    pub fn is_allocated(&self, addr: usize) -> (r: bool)
        requires
            self.wf(),
        ensures
            r == self.allocated(addr as int),
    {
        match self.slot_index(addr) {
            Some(i) => !self.stack.contains(i),
            None => false,
        }
    }

    /// Hands out the free slot on top of the stack: returns its address and
    /// whether it holds a constructed object, and forgets the latter.
    pub fn allocate(&mut self) -> (r: (usize, bool))
        requires
            old(self).wf(),
            old(self).free().len() > 0,
        ensures
            final(self).wf(),
            final(self).spec_base() == old(self).spec_base(),
            final(self).spec_slots_start() == old(self).spec_slots_start(),
            final(self).spec_object_size() == old(self).spec_object_size(),
            final(self).spec_capacity() == old(self).spec_capacity(),
            final(self).free() == old(self).free().drop_last(),
            old(self).free().last() < old(self).spec_capacity(),
            !final(self).free().contains(old(self).free().last()),
            r.0 == old(self).slot_addr(old(self).free().last() as int),
            r.1 == old(self).cached(old(self).free().last() as int),
            forall|i: int|
                final(self).cached(i) == (old(self).cached(i) && i != old(self).free().last()),
    {
        let ghost before = *self;
        let idx = self.stack.pop();
        proof {
            self.stack.lemma_wf();
        }
        let was = (self.init >> (idx as u64)) & 1 == 1;
        self.init = self.init & !(1u64 << (idx as u64));
        proof {
            before.lemma_slots_apart(idx as int, idx as int);
            assert forall|i: int|
                self.cached(i) == (before.cached(i) && i != before.free().last()) by {
                if 0 <= i < 64 {
                    lemma_bit_clear(before.init, idx as u64, i as u64);
                }
            }
            assert forall|i: int| #[trigger]
                self.cached(i) implies i < self.spec_capacity() && self.free().contains(
                i as usize,
            ) by {
                assert(before.cached(i));
                let k = choose|k: int|
                    0 <= k < before.free().len() && before.free()[k] == i as usize;
                assert(self.free()[k] == i as usize);
            }
        }
        (self.slots_start + idx * self.object_size, was)
    }

    /// Takes slot `index` back and records whether it holds a constructed
    /// object. Returns whether the slab had no free slot before.
    pub fn dealloc(&mut self, index: usize, initialized: bool) -> (was_empty: bool)
        requires
            old(self).wf(),
            index < old(self).spec_capacity(),
            !old(self).free().contains(index),
        ensures
            final(self).wf(),
            final(self).spec_base() == old(self).spec_base(),
            final(self).spec_slots_start() == old(self).spec_slots_start(),
            final(self).spec_object_size() == old(self).spec_object_size(),
            final(self).spec_capacity() == old(self).spec_capacity(),
            final(self).free() == old(self).free().push(index),
            was_empty == (old(self).free().len() == 0),
            forall|i: int|
                final(self).cached(i) == (if i == index {
                    initialized
                } else {
                    old(self).cached(i)
                }),
    {
        let ghost before = *self;
        proof {
            self.stack.lemma_wf();
        }
        let was_empty = self.stack.len() == 0;
        self.stack.push(index);
        if initialized {
            self.init = self.init | (1u64 << (index as u64));
        } else {
            self.init = self.init & !(1u64 << (index as u64));
        }
        proof {
            assert forall|i: int|
                self.cached(i) == (if i == index {
                    initialized
                } else {
                    before.cached(i)
                }) by {
                if 0 <= i < 64 {
                    lemma_bit_set(before.init, index as u64, i as u64);
                    lemma_bit_clear(before.init, index as u64, i as u64);
                }
            }
            assert forall|i: int| #[trigger]
                self.cached(i) implies i < self.spec_capacity() && self.free().contains(
                i as usize,
            ) by {
                if i == index {
                    assert(self.free()[before.free().len() as int] == index);
                } else {
                    assert(before.cached(i));
                    let k = choose|k: int|
                        0 <= k < before.free().len() && before.free()[k] == i as usize;
                    assert(self.free()[k] == i as usize);
                }
            }
        }
        was_empty
    }
}

} // verus!
