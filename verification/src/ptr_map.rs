//! The map from region base addresses to slab handles.
//!
//! Entries are kept sorted by base address, so both the exact lookup and the
//! search for the region that lies at or below an address are binary searches.

use vstd::prelude::*;

verus! {

/// One region: its base address and the handle of the slab that lives in it.
#[derive(Clone, Copy, Debug)]
pub struct Entry {
    base: usize,
    id: usize,
}

/// An ordered map from region base addresses to slab handles.
pub struct PtrMap {
    entries: Vec<Entry>,
    map: Ghost<Map<usize, usize>>,
}

impl View for PtrMap {
    type V = Map<usize, usize>;

    closed spec fn view(&self) -> Map<usize, usize> {
        self.map@
    }
}

impl PtrMap {
    /// Whether some entry has base address `base`.
    closed spec fn listed(&self, base: usize) -> bool {
        exists|k: int| 0 <= k < self.entries@.len() && (#[trigger] self.entries@[k]).base == base
    }

    /// The entries are sorted by base address and are exactly the view.
    pub closed spec fn wf(&self) -> bool {
        &&& forall|i: int, j: int|
            0 <= i < j < self.entries@.len() ==> (#[trigger] self.entries@[i]).base < (
            #[trigger] self.entries@[j]).base
        &&& forall|k: int|
            0 <= k < self.entries@.len() ==> self@.contains_key(
                (#[trigger] self.entries@[k]).base,
            ) && self@[self.entries@[k].base] == self.entries@[k].id
        &&& forall|b: usize| #[trigger] self@.contains_key(b) ==> self.listed(b)
    }

    /// An empty map.
    pub fn new() -> (m: PtrMap)
        ensures
            m.wf(),
            m@ == Map::<usize, usize>::empty(),
    {
        PtrMap { entries: Vec::new(), map: Ghost(Map::empty()) }
    }

    /// The number of regions.
    pub fn len(&self) -> (n: usize)
        ensures
            n == self.spec_len(),
    {
        self.entries.len()
    }

    pub closed spec fn spec_len(&self) -> nat {
        self.entries@.len()
    }

    /// The index of the first entry whose base lies above `key`.
    fn upper_bound(&self, key: usize) -> (pos: usize)
        requires
            self.wf(),
        ensures
            pos <= self.entries@.len(),
            forall|k: int| 0 <= k < pos ==> (#[trigger] self.entries@[k]).base <= key,
            forall|k: int|
                pos <= k < self.entries@.len() ==> (#[trigger] self.entries@[k]).base > key,
    {
        let mut lo: usize = 0;
        let mut hi: usize = self.entries.len();
        while lo < hi
            invariant
                self.wf(),
                lo <= hi <= self.entries@.len(),
                forall|k: int| 0 <= k < lo ==> (#[trigger] self.entries@[k]).base <= key,
                forall|k: int|
                    hi <= k < self.entries@.len() ==> (#[trigger] self.entries@[k]).base > key,
            decreases hi - lo,
        {
            let mid: usize = lo + (hi - lo) / 2;
            if self.entries[mid].base <= key {
                lo = mid + 1;
            } else {
                hi = mid;
            }
        }
        lo
    }

    /// The entry with the greatest base address that is not above `addr`.
    pub fn find_le(&self, addr: usize) -> (r: Option<(usize, usize)>)
        requires
            self.wf(),
        ensures
            match r {
                Some((base, id)) => {
                    &&& self@.contains_key(base)
                    &&& self@[base] == id
                    &&& base <= addr
                    &&& forall|b: usize| #[trigger] self@.contains_key(b) && b <= addr ==> b <= base
                },
                None => forall|b: usize| #[trigger] self@.contains_key(b) ==> b > addr,
            },
    {
        let pos = self.upper_bound(addr);
        if pos == 0 {
            proof {
                assert forall|b: usize| #[trigger] self@.contains_key(b) implies b > addr by {
                    assert(self.listed(b));
                    let k = choose|k: int|
                        0 <= k < self.entries@.len() && (#[trigger] self.entries@[k]).base == b;
                }
            }
            None
        } else {
            let e = self.entries[pos - 1];
            proof {
                assert forall|b: usize| #[trigger] self@.contains_key(b) && b <= addr implies b
                    <= e.base by {
                    assert(self.listed(b));
                    let k = choose|k: int|
                        0 <= k < self.entries@.len() && (#[trigger] self.entries@[k]).base == b;
                    if k > pos - 1 {
                        assert(self.entries@[k].base > addr);
                    } else if k < pos - 1 {
                        assert(self.entries@[k].base < self.entries@[pos - 1].base);
                    }
                }
            }
            Some((e.base, e.id))
        }
    }

    /// The handle stored under `base`.
    pub fn get(&self, base: usize) -> (r: Option<usize>)
        requires
            self.wf(),
        ensures
            r == if self@.contains_key(base) {
                Some(self@[base])
            } else {
                None
            },
    {
        match self.find_le(base) {
            Some((b, id)) => if b == base {
                Some(id)
            } else {
                None
            },
            None => None,
        }
    }

    /// Adds the region at `base` with handle `id`.
    pub fn insert(&mut self, base: usize, id: usize)
        requires
            old(self).wf(),
            !old(self)@.contains_key(base),
        ensures
            final(self).wf(),
            final(self)@ == old(self)@.insert(base, id),
            final(self).spec_len() == old(self).spec_len() + 1,
    {
        let pos = self.upper_bound(base);
        let ghost before = self.entries@;
        let ghost old_self = *self;
        self.entries.insert(pos, Entry { base, id });
        self.map = Ghost(self.map@.insert(base, id));
        proof {
            let after = self.entries@;
            assert forall|k: int| 0 <= k < after.len() implies #[trigger] after[k] == (if k < pos {
                before[k]
            } else if k == pos {
                Entry { base, id }
            } else {
                before[k - 1]
            }) by {}
            assert forall|k: int| 0 <= k < before.len() implies (#[trigger] before[k]).base
                != base by {
                assert(old_self@.contains_key(before[k].base));
            }
            assert forall|i: int, j: int| 0 <= i < j < after.len() implies (#[trigger] after[i]).base
                < (#[trigger] after[j]).base by {
                let oi = if i < pos { i } else { i - 1 };
                let oj = if j < pos { j } else { j - 1 };
                if i != pos {
                    assert(after[i] == before[oi]);
                }
                if j != pos {
                    assert(after[j] == before[oj]);
                }
            }
            assert forall|k: int| 0 <= k < after.len() implies self@.contains_key(
                (#[trigger] after[k]).base,
            ) && self@[after[k].base] == after[k].id by {
                let ok = if k < pos { k } else { k - 1 };
                if k != pos {
                    assert(after[k] == before[ok]);
                    assert(old_self@.contains_key(before[ok].base));
                }
            }
            assert forall|b: usize| #[trigger] self@.contains_key(b) implies self.listed(b) by {
                if b == base {
                    assert(after[pos as int].base == b);
                } else {
                    assert(old_self@.contains_key(b));
                    assert(old_self.listed(b));
                    let k = choose|k: int|
                        0 <= k < before.len() && (#[trigger] before[k]).base == b;
                    let nk = if k < pos { k } else { k + 1 };
                    assert(after[nk].base == b);
                }
            }
        }
    }

    /// Removes the region at `base`; returns the handle it held, if any.
    pub fn remove(&mut self, base: usize) -> (r: Option<usize>)
        requires
            old(self).wf(),
        ensures
            final(self).wf(),
            final(self)@ == old(self)@.remove(base),
            r == if old(self)@.contains_key(base) {
                Some(old(self)@[base])
            } else {
                None
            },
            final(self).spec_len() == if old(self)@.contains_key(base) {
                old(self).spec_len() - 1
            } else {
                old(self).spec_len() as int
            },
    {
        let pos = self.upper_bound(base);
        let ghost before = self.entries@;
        let ghost old_self = *self;
        if pos == 0 || self.entries[pos - 1].base != base {
            proof {
                if self@.contains_key(base) {
                    assert(self.listed(base));
                    let k = choose|k: int|
                        0 <= k < before.len() && (#[trigger] before[k]).base == base;
                    if k > pos - 1 {
                        assert(before[k].base > base);
                    } else if k < pos - 1 {
                        assert(before[k].base < before[pos - 1].base);
                    }
                }
                assert(self@.remove(base) =~= self@);
            }
            return None;
        }
        let at: usize = pos - 1;
        let e = self.entries.remove(at);
        self.map = Ghost(self.map@.remove(base));
        proof {
            let after = self.entries@;
            assert(old_self@.contains_key(before[at as int].base));
            assert forall|k: int| 0 <= k < after.len() implies #[trigger] after[k] == (if k < at {
                before[k]
            } else {
                before[k + 1]
            }) by {}
            assert forall|i: int, j: int| 0 <= i < j < after.len() implies (#[trigger] after[i]).base
                < (#[trigger] after[j]).base by {
                let oi = if i < at { i } else { i + 1 };
                let oj = if j < at { j } else { j + 1 };
                assert(after[i] == before[oi] && after[j] == before[oj]);
            }
            assert forall|k: int| 0 <= k < after.len() implies self@.contains_key(
                (#[trigger] after[k]).base,
            ) && self@[after[k].base] == after[k].id by {
                let ok = if k < at { k } else { k + 1 };
                assert(after[k] == before[ok]);
                assert(old_self@.contains_key(before[ok].base));
                if ok < at {
                    assert(before[ok].base < before[at as int].base);
                } else {
                    assert(before[at as int].base < before[ok].base);
                }
            }
            assert forall|b: usize| #[trigger] self@.contains_key(b) implies self.listed(b) by {
                assert(old_self@.contains_key(b));
                assert(old_self.listed(b));
                let k = choose|k: int| 0 <= k < before.len() && (#[trigger] before[k]).base == b;
                assert(k != at);
                let nk = if k < at { k } else { k - 1 };
                assert(after[nk].base == b);
            }
        }
        Some(e.id)
    }
}

} // verus!
