//! The per-slab stack of free slot indices.

use crate::list::lemma_distinct_bounded;
use vstd::prelude::*;

verus! {

/// The most slots a slab can hold: one bit of the init bitmap per slot.
pub const MAX_OBJECTS_PER_SLAB: usize = 64;

/// A LIFO of free slot indices, each stored in a single byte.
pub struct SlotStack {
    slots: Vec<u8>,
    capacity: usize,
}

impl View for SlotStack {
    type V = Seq<usize>;

    /// The free indices, bottom first: the last element is popped next.
    closed spec fn view(&self) -> Seq<usize> {
        Seq::new(self.slots@.len(), |k: int| self.slots@[k] as usize)
    }
}

/// The stack a fresh slab starts with: every index below `n`, ordered so that
/// successive pops yield `0, 1, 2, ...`.
pub open spec fn full_stack(n: nat) -> Seq<usize> {
    Seq::new(n, |k: int| (n - 1 - k) as usize)
}

/// The stack of a fresh slab holds every index below its capacity.
pub proof fn lemma_full_stack_contains(n: nat, i: usize)
    requires
        i < n,
    ensures
        full_stack(n).contains(i),
{
    assert(full_stack(n)[n - 1 - i] == i);
}

impl SlotStack {
    pub closed spec fn spec_capacity(&self) -> usize {
        self.capacity
    }

    /// Every entry is a distinct index below the capacity.
    pub closed spec fn wf(&self) -> bool {
        &&& 1 <= self.capacity <= MAX_OBJECTS_PER_SLAB
        &&& self@.no_duplicates()
        &&& forall|k: int| 0 <= k < self@.len() ==> #[trigger] self@[k] < self.capacity
    }

    /// A well-formed stack holds distinct indices below its capacity, hence
    /// no more of them than the capacity.
    pub proof fn lemma_wf(&self)
        requires
            self.wf(),
        ensures
            1 <= self.spec_capacity() <= MAX_OBJECTS_PER_SLAB,
            self@.no_duplicates(),
            forall|k: int| 0 <= k < self@.len() ==> #[trigger] self@[k] < self.spec_capacity(),
            self@.len() <= self.spec_capacity(),
    {
        lemma_distinct_bounded(self@, self.capacity as nat);
    }

    /// The stack holding every index below `capacity`.
    pub fn new_full(capacity: usize) -> (stack: SlotStack)
        requires
            1 <= capacity <= MAX_OBJECTS_PER_SLAB,
        ensures
            stack.wf(),
            stack.spec_capacity() == capacity,
            stack@ == full_stack(capacity as nat),
    {
        let mut slots: Vec<u8> = Vec::new();
        let mut k: usize = 0;
        while k < capacity
            invariant
                k <= capacity <= MAX_OBJECTS_PER_SLAB,
                slots@.len() == k,
                forall|j: int| 0 <= j < k ==> #[trigger] slots@[j] == capacity - 1 - j,
            decreases capacity - k,
        {
            slots.push((capacity - 1 - k) as u8);
            k = k + 1;
        }
        let stack = SlotStack { slots, capacity };
        assert(stack@ =~= full_stack(capacity as nat));
        stack
    }

    #[verifier::when_used_as_spec(spec_capacity)]
    pub fn capacity(&self) -> (n: usize)
        ensures
            n == self.spec_capacity(),
    {
        self.capacity
    }

    /// The number of free indices on the stack.
    pub fn len(&self) -> (n: usize)
        ensures
            n == self@.len(),
    {
        self.slots.len()
    }

    /// Whether `index` is on the stack.
    pub fn contains(&self, index: usize) -> (r: bool)
        ensures
            r == self@.contains(index),
    {
        let mut k: usize = 0;
        while k < self.slots.len()
            invariant
                k <= self.slots@.len(),
                forall|j: int| 0 <= j < k ==> #[trigger] self@[j] != index,
            decreases self.slots@.len() - k,
        {
            if self.slots[k] as usize == index {
                assert(self@[k as int] == index);
                return true;
            }
            k = k + 1;
        }
        false
    }

    /// Pushes a free index.
    pub fn push(&mut self, index: usize)
        requires
            old(self).wf(),
            index < old(self).spec_capacity(),
            !old(self)@.contains(index),
        ensures
            final(self).wf(),
            final(self).spec_capacity() == old(self).spec_capacity(),
            final(self)@ == old(self)@.push(index),
    {
        let ghost before = self@;
        self.slots.push(index as u8);
        proof {
            assert(self@ =~= before.push(index));
            assert forall|i: int, j: int|
                0 <= i < self@.len() && 0 <= j < self@.len() && i != j implies self@[i]
                != self@[j] by {
                if i < before.len() {
                    assert(before.contains(self@[i]));
                }
                if j < before.len() {
                    assert(before.contains(self@[j]));
                }
            }
        }
    }

    /// Pops the index pushed last.
    pub fn pop(&mut self) -> (index: usize)
        requires
            old(self).wf(),
            old(self)@.len() > 0,
        ensures
            final(self).wf(),
            final(self).spec_capacity() == old(self).spec_capacity(),
            index == old(self)@.last(),
            index < old(self).spec_capacity(),
            final(self)@ == old(self)@.drop_last(),
            !final(self)@.contains(index),
    {
        let ghost before = self@;
        let byte = self.slots.pop().unwrap();
        proof {
            assert(self@ =~= before.drop_last());
            assert(before[before.len() - 1] == byte as usize);
            if self@.contains(byte as usize) {
                let k = choose|k: int| 0 <= k < self@.len() && self@[k] == byte as usize;
                assert(before[k] == before[before.len() - 1]);
            }
        }
        byte as usize
    }
}

} // verus!
