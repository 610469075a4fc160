//! A doubly linked list of slab handles.
//!
//! The links of a slab are stored under the slab's own handle, so linking and
//! unlinking a known slab takes constant time and allocates nothing per
//! operation. The list's view is the sequence of handles from head to tail.

use vstd::prelude::*;

verus! {

/// The link fields of one slab.
#[derive(Clone, Copy, Debug)]
pub struct Link {
    prev: Option<usize>,
    next: Option<usize>,
    linked: bool,
}

/// A doubly linked list over slab handles.
pub struct LinkedList {
    head: Option<usize>,
    tail: Option<usize>,
    len: usize,
    links: Vec<Link>,
    order: Ghost<Seq<usize>>,
}

/// The element of `s` at position `k`, if there is one.
pub open spec fn element_at(s: Seq<usize>, k: int) -> Option<usize> {
    if 0 <= k < s.len() {
        Some(s[k])
    } else {
        None
    }
}

/// A sequence without repetitions whose elements are all below `n` has at most
/// `n` elements.
pub proof fn lemma_distinct_bounded(s: Seq<usize>, n: nat)
    requires
        s.no_duplicates(),
        forall|k: int| 0 <= k < s.len() ==> #[trigger] s[k] < n,
    ensures
        s.len() <= n,
    decreases n,
{
    if s.len() == 0 {
    } else if n == 0 {
        assert(s[0] < n);
    } else {
        // drop the element n - 1, if present, and recurse
        let top = (n - 1) as usize;
        if s.contains(top) {
            let k = s.index_of(top);
            let t = s.remove(k);
            assert forall|i: int, j: int| 0 <= i < t.len() && 0 <= j < t.len() && i != j implies t[i]
                != t[j] by {
                let oi = if i < k { i } else { i + 1 };
                let oj = if j < k { j } else { j + 1 };
                assert(t[i] == s[oi] && t[j] == s[oj]);
            }
            assert forall|i: int| 0 <= i < t.len() implies #[trigger] t[i] < n - 1 by {
                let oi = if i < k { i } else { i + 1 };
                assert(t[i] == s[oi]);
                assert(s[oi] != s[k]);
            }
            lemma_distinct_bounded(t, (n - 1) as nat);
        } else {
            assert forall|i: int| 0 <= i < s.len() implies #[trigger] s[i] < n - 1 by {
                assert(s.contains(s[i]));
            }
            lemma_distinct_bounded(s, (n - 1) as nat);
        }
    }
}

/// A sequence without repetitions that has `n` elements, all below `n`,
/// contains every index below `n`.
pub proof fn lemma_distinct_full(s: Seq<usize>, n: nat, i: usize)
    requires
        s.no_duplicates(),
        forall|k: int| 0 <= k < s.len() ==> #[trigger] s[k] < n,
        s.len() == n,
        i < n,
    ensures
        s.contains(i),
{
    if !s.contains(i) {
        // close the gap at i: an injection into the indices below n - 1
        let t = Seq::new(
            s.len(),
            |k: int|
                if s[k] > i {
                    (s[k] - 1) as usize
                } else {
                    s[k]
                },
        );
        assert forall|a: int, b: int| 0 <= a < t.len() && 0 <= b < t.len() && a != b implies t[a]
            != t[b] by {
            assert(s[a] != s[b]);
            assert(s.contains(s[a]));
            assert(s.contains(s[b]));
        }
        assert forall|k: int| 0 <= k < t.len() implies #[trigger] t[k] < n - 1 by {
            assert(s[k] < n);
            assert(s.contains(s[k]));
        }
        lemma_distinct_bounded(t, (n - 1) as nat);
    }
}

/// A sequence without repetitions that has fewer than `n` elements misses
/// some index below `n`.
pub proof fn lemma_distinct_missing(s: Seq<usize>, n: nat) -> (i: usize)
    requires
        s.no_duplicates(),
        s.len() < n,
        n <= usize::MAX,
    ensures
        i < n,
        !s.contains(i),
{
    if forall|i: usize| i < n ==> s.contains(i) {
        // the positions of 0, .., n - 1 in s are n distinct indices below s.len()
        let t = Seq::new(n, |i: int| s.index_of(i as usize) as usize);
        assert forall|a: int, b: int| 0 <= a < t.len() && 0 <= b < t.len() && a != b implies t[a]
            != t[b] by {
            assert(s.contains(a as usize) && s.contains(b as usize));
            assert(s[s.index_of(a as usize)] == a as usize);
            assert(s[s.index_of(b as usize)] == b as usize);
        }
        assert forall|k: int| 0 <= k < t.len() implies #[trigger] t[k] < s.len() by {
            assert(s.contains(k as usize));
        }
        lemma_distinct_bounded(t, s.len());
        0
    } else {
        choose|i: usize| i < n && !s.contains(i)
    }
}

impl View for LinkedList {
    type V = Seq<usize>;

    closed spec fn view(&self) -> Seq<usize> {
        self.order@
    }
}

impl LinkedList {
    /// The representation invariant: the link fields spell out the view.
    pub closed spec fn wf(&self) -> bool {
        let order = self.order@;
        &&& order.no_duplicates()
        &&& self.len == order.len()
        &&& forall|k: int| 0 <= k < order.len() ==> #[trigger] order[k] < self.links@.len()
        &&& forall|k: int|
            0 <= k < order.len() ==> {
                let l = #[trigger] self.links@[order[k] as int];
                l.linked && l.prev == element_at(order, k - 1) && l.next == element_at(
                    order,
                    k + 1,
                )
            }
        &&& forall|i: int|
            0 <= i < self.links@.len() && (#[trigger] self.links@[i]).linked ==> order.contains(
                i as usize,
            )
        &&& self.head == element_at(order, 0)
        &&& self.tail == element_at(order, order.len() - 1)
    }

    /// In a well-formed list no handle occurs twice, and the handles number
    /// no more than a `usize` can count.
    pub proof fn lemma_no_duplicates(&self)
        requires
            self.wf(),
        ensures
            self@.no_duplicates(),
            self@.len() <= usize::MAX,
    {
    }

    /// An empty list.
    pub fn new() -> (list: LinkedList)
        ensures
            list.wf(),
            list@ == Seq::<usize>::empty(),
    {
        LinkedList { head: None, tail: None, len: 0, links: Vec::new(), order: Ghost(Seq::empty()) }
    }

    /// The number of slabs in the list.
    pub fn size(&self) -> (n: usize)
        requires
            self.wf(),
        ensures
            n == self@.len(),
    {
        self.len
    }

    /// Whether `id` is in the list.
    pub fn contains(&self, id: usize) -> (r: bool)
        requires
            self.wf(),
        ensures
            r == self@.contains(id),
    {
        if id < self.links.len() {
            let r = self.links[id].linked;
            proof {
                if !r && self@.contains(id) {
                    let k = self@.index_of(id);
                    assert(self.links@[self.order@[k] as int].linked);
                }
            }
            r
        } else {
            proof {
                if self@.contains(id) {
                    let k = self@.index_of(id);
                    assert(self.order@[k] < self.links@.len());
                }
            }
            false
        }
    }

    /// The head of the list.
    pub fn peek_front(&self) -> (id: usize)
        requires
            self.wf(),
            self@.len() > 0,
        ensures
            id == self@[0],
    {
        self.head.unwrap()
    }

    /// The tail of the list.
    pub fn peek_back(&self) -> (id: usize)
        requires
            self.wf(),
            self@.len() > 0,
        ensures
            id == self@[self@.len() - 1],
    {
        self.tail.unwrap()
    }

    /// Grows the link table until it has an entry for `id`.
    fn reserve(&mut self, id: usize)
        requires
            old(self).wf(),
        ensures
            final(self).wf(),
            final(self)@ == old(self)@,
            id < final(self).links@.len(),
    {
        while self.links.len() <= id
            invariant
                self.wf(),
                self@ == old(self)@,
            decreases id + 1 - self.links@.len(),
        {
            let ghost before = self.links@;
            self.links.push(Link { prev: None, next: None, linked: false });
            proof {
                let order = self.order@;
                assert forall|k: int| 0 <= k < order.len() implies {
                    let l = #[trigger] self.links@[order[k] as int];
                    l.linked && l.prev == element_at(order, k - 1) && l.next == element_at(
                        order,
                        k + 1,
                    )
                } by {
                    assert(order[k] < before.len());
                    assert(self.links@[order[k] as int] == before[order[k] as int]);
                }
                assert forall|i: int|
                    0 <= i < self.links@.len() && (#[trigger] self.links@[i]).linked implies order.contains(
                    i as usize,
                ) by {
                    assert(i < before.len());
                    assert(before[i].linked);
                }
            }
        }
    }

    /// Links `id` in as the new tail.
    pub fn insert_back(&mut self, id: usize)
        requires
            old(self).wf(),
            !old(self)@.contains(id),
        ensures
            final(self).wf(),
            final(self)@ == old(self)@.push(id),
    {
        self.reserve(id);
        let ghost order = self.order@;
        let ghost before = self.links@;
        proof {
            lemma_distinct_bounded(order, before.len());
            if before[id as int].linked {
                assert(order.contains(id));
            }
            // the new handle is not in the list, so not every entry is linked
            let grown = order.push(id);
            assert forall|i: int, j: int|
                0 <= i < grown.len() && 0 <= j < grown.len() && i != j implies grown[i]
                != grown[j] by {
                if i < order.len() {
                    assert(order.contains(grown[i]));
                }
                if j < order.len() {
                    assert(order.contains(grown[j]));
                }
            }
            assert forall|k: int| 0 <= k < grown.len() implies #[trigger] grown[k]
                < before.len() by {
                if k < order.len() {
                    assert(grown[k] == order[k]);
                }
            }
            lemma_distinct_bounded(grown, before.len());
            assert(before.len() == self.links.len());
            assert(self.len + 1 <= before.len());
        }
        let old_tail = self.tail;
        self.links.set(id, Link { prev: old_tail, next: None, linked: true });
        match old_tail {
            Some(t) => {
                assert(t == order[order.len() - 1]);
                let l = self.links[t];
                self.links.set(t, Link { prev: l.prev, next: Some(id), linked: l.linked });
            },
            None => {
                self.head = Some(id);
            },
        }
        self.tail = Some(id);
        self.len = self.len + 1;
        self.order = Ghost(order.push(id));
        proof {
            let grown = self.order@;
            let n = order.len() as int;
            assert forall|k: int| 0 <= k < grown.len() implies {
                let l = #[trigger] self.links@[grown[k] as int];
                l.linked && l.prev == element_at(grown, k - 1) && l.next == element_at(
                    grown,
                    k + 1,
                )
            } by {
                if k < n {
                    assert(grown[k] == order[k]);
                    assert(order[k] != id) by {
                        assert(order.contains(order[k]));
                    }
                    let l0 = before[order[k] as int];
                    assert(l0.linked && l0.prev == element_at(order, k - 1) && l0.next
                        == element_at(order, k + 1));
                    if k == n - 1 {
                    } else {
                        assert(order[k] != order[n - 1]);
                        assert(self.links@[order[k] as int] == l0);
                    }
                }
            }
            assert forall|i: int|
                0 <= i < self.links@.len() && (#[trigger] self.links@[i]).linked implies grown.contains(
                i as usize,
            ) by {
                if i == id {
                    assert(grown[n] == id);
                } else {
                    assert(before[i].linked);
                    assert(order.contains(i as usize));
                    let k = order.index_of(i as usize);
                    assert(order[k] == i);
                    assert(grown[k] == i);
                }
            }
        }
    }

    /// Links `id` in as the new head.
    pub fn insert_front(&mut self, id: usize)
        requires
            old(self).wf(),
            !old(self)@.contains(id),
        ensures
            final(self).wf(),
            final(self)@ == seq![id] + old(self)@,
    {
        self.reserve(id);
        let ghost order = self.order@;
        let ghost before = self.links@;
        let ghost grown = seq![id] + order;
        proof {
            if before[id as int].linked {
                assert(order.contains(id));
            }
            assert forall|i: int, j: int|
                0 <= i < grown.len() && 0 <= j < grown.len() && i != j implies grown[i]
                != grown[j] by {
                if i > 0 {
                    assert(grown[i] == order[i - 1]);
                    assert(order.contains(grown[i]));
                }
                if j > 0 {
                    assert(grown[j] == order[j - 1]);
                    assert(order.contains(grown[j]));
                }
            }
            assert forall|k: int| 0 <= k < grown.len() implies #[trigger] grown[k]
                < before.len() by {
                if k > 0 {
                    assert(grown[k] == order[k - 1]);
                }
            }
            lemma_distinct_bounded(grown, before.len());
            assert(before.len() == self.links.len());
            assert(self.len + 1 <= before.len());
        }
        let old_head = self.head;
        self.links.set(id, Link { prev: None, next: old_head, linked: true });
        match old_head {
            Some(h) => {
                assert(h == order[0]);
                let l = self.links[h];
                self.links.set(h, Link { prev: Some(id), next: l.next, linked: l.linked });
            },
            None => {
                self.tail = Some(id);
            },
        }
        self.head = Some(id);
        self.len = self.len + 1;
        self.order = Ghost(grown);
        proof {
            let n = order.len() as int;
            assert forall|k: int| 0 <= k < grown.len() implies {
                let l = #[trigger] self.links@[grown[k] as int];
                l.linked && l.prev == element_at(grown, k - 1) && l.next == element_at(
                    grown,
                    k + 1,
                )
            } by {
                if k > 0 {
                    let j = k - 1;
                    assert(grown[k] == order[j]);
                    assert(order[j] != id) by {
                        assert(order.contains(order[j]));
                    }
                    let l0 = before[order[j] as int];
                    assert(l0.linked && l0.prev == element_at(order, j - 1) && l0.next
                        == element_at(order, j + 1));
                    if j == 0 {
                    } else {
                        assert(order[j] != order[0]);
                        assert(self.links@[order[j] as int] == l0);
                        assert(grown[k - 1] == order[j - 1]);
                    }
                    if j + 1 < n {
                        assert(grown[k + 1] == order[j + 1]);
                    }
                } else {
                    if n > 0 {
                        assert(grown[1] == order[0]);
                    }
                }
            }
            assert forall|i: int|
                0 <= i < self.links@.len() && (#[trigger] self.links@[i]).linked implies grown.contains(
                i as usize,
            ) by {
                if i == id {
                    assert(grown[0] == id);
                } else {
                    assert(before[i].linked);
                    assert(order.contains(i as usize));
                    let k = order.index_of(i as usize);
                    assert(order[k] == i);
                    assert(grown[k + 1] == i);
                }
            }
            if n > 0 {
                assert(grown[grown.len() - 1] == order[n - 1]);
            }
        }
    }

    /// Unlinks `id` from wherever it stands.
    pub fn remove(&mut self, id: usize)
        requires
            old(self).wf(),
            old(self)@.contains(id),
        ensures
            final(self).wf(),
            final(self)@ == old(self)@.remove(old(self)@.index_of(id)),
            !final(self)@.contains(id),
    {
        let ghost order = self.order@;
        let ghost before = self.links@;
        let ghost pos = order.index_of(id);
        let ghost n = order.len() as int;
        proof {
            assert(order[pos] == id);
            assert(order[pos] < before.len());
            let l = before[order[pos] as int];
            assert(l.linked && l.prev == element_at(order, pos - 1) && l.next == element_at(
                order,
                pos + 1,
            ));
        }
        proof {
            assert(before.len() == self.links.len());
        }
        let link = self.links[id];
        match link.prev {
            Some(p) => {
                proof {
                    assert(p == order[pos - 1]);
                    assert(order[pos - 1] < before.len());
                }
                let l = self.links[p];
                self.links.set(p, Link { prev: l.prev, next: link.next, linked: l.linked });
            },
            None => {
                self.head = link.next;
            },
        }
        let ghost middle = self.links@;
        match link.next {
            Some(nx) => {
                proof {
                    assert(nx == order[pos + 1]);
                    assert(order[pos + 1] < before.len());
                }
                let l = self.links[nx];
                self.links.set(nx, Link { prev: link.prev, next: l.next, linked: l.linked });
            },
            None => {
                self.tail = link.prev;
            },
        }
        self.links.set(id, Link { prev: None, next: None, linked: false });
        self.len = self.len - 1;
        self.order = Ghost(order.remove(pos));
        proof {
            let rest = self.order@;
            assert(rest.len() == n - 1);
            assert forall|k: int| 0 <= k < rest.len() implies rest[k] == order[if k < pos {
                k
            } else {
                k + 1
            }] by {}
            assert forall|i: int, j: int|
                0 <= i < rest.len() && 0 <= j < rest.len() && i != j implies rest[i]
                != rest[j] by {
                let oi = if i < pos { i } else { i + 1 };
                let oj = if j < pos { j } else { j + 1 };
                assert(rest[i] == order[oi] && rest[j] == order[oj]);
            }
            assert forall|k: int| 0 <= k < rest.len() implies #[trigger] rest[k]
                < self.links@.len() by {
                let ok = if k < pos { k } else { k + 1 };
                assert(rest[k] == order[ok]);
                assert(order[ok] < before.len());
            }
            assert forall|k: int| 0 <= k < rest.len() implies {
                let l = #[trigger] self.links@[rest[k] as int];
                l.linked && l.prev == element_at(rest, k - 1) && l.next == element_at(
                    rest,
                    k + 1,
                )
            } by {
                let ok = if k < pos { k } else { k + 1 };
                assert(rest[k] == order[ok]);
                assert(order[ok] < before.len());
                let l0 = before[order[ok] as int];
                assert(l0.linked && l0.prev == element_at(order, ok - 1) && l0.next
                    == element_at(order, ok + 1));
                assert(order[ok] != order[pos]);
                if ok != pos - 1 && pos >= 1 {
                    assert(order[ok] != order[pos - 1]);
                }
                if ok != pos + 1 && pos + 1 < n {
                    assert(order[ok] != order[pos + 1]);
                }
                if k >= 1 {
                    let pk = if k - 1 < pos { k - 1 } else { k };
                    assert(rest[k - 1] == order[pk]);
                }
                if k + 1 < rest.len() {
                    let nk = if k + 1 < pos { k + 1 } else { k + 2 };
                    assert(rest[k + 1] == order[nk]);
                }
                if pos >= 1 && pos + 1 < n {
                    assert(order[pos - 1] != order[pos + 1]);
                }
            }
            assert forall|i: int|
                0 <= i < self.links@.len() && (#[trigger] self.links@[i]).linked implies rest.contains(
                i as usize,
            ) by {
                assert(i != id);
                assert(before[i].linked);
                assert(order.contains(i as usize));
                let k = choose|k: int| 0 <= k < order.len() && order[k] == i as usize;
                assert(k != pos);
                let rk = if k < pos { k } else { k - 1 };
                assert(rest[rk] == i);
            }
            if rest.len() > 0 {
                let fk = if 0 < pos { 0 } else { 1int };
                assert(rest[0] == order[fk]);
                let lk = if rest.len() - 1 < pos { rest.len() - 1 } else { rest.len() as int };
                assert(rest[rest.len() - 1] == order[lk]);
            }
            if rest.contains(id) {
                let k = rest.index_of(id);
                let ok = if k < pos { k } else { k + 1 };
                assert(rest[k] == order[ok]);
                assert(order[ok] != order[pos]);
            }
        }
    }

    /// Unlinks and returns the head.
    pub fn remove_front(&mut self) -> (id: usize)
        requires
            old(self).wf(),
            old(self)@.len() > 0,
        ensures
            final(self).wf(),
            id == old(self)@[0],
            final(self)@ == old(self)@.drop_first(),
            !final(self)@.contains(id),
    {
        let id = self.head.unwrap();
        proof {
            assert(self@[0] == id);
            assert(self@.contains(id));
            assert(self@.index_of(id) == 0) by {
                let k = self@.index_of(id);
                if k != 0 {
                    assert(self@[k] != self@[0]);
                }
            }
            assert(self@.remove(0) =~= self@.drop_first());
        }
        self.remove(id);
        id
    }

    /// Unlinks and returns the tail.
    pub fn remove_back(&mut self) -> (id: usize)
        requires
            old(self).wf(),
            old(self)@.len() > 0,
        ensures
            final(self).wf(),
            id == old(self)@.last(),
            final(self)@ == old(self)@.drop_last(),
            !final(self)@.contains(id),
    {
        let id = self.tail.unwrap();
        proof {
            let last = self@.len() - 1;
            assert(self@[last] == id);
            assert(self@.contains(id));
            assert(self@.index_of(id) == last) by {
                let k = self@.index_of(id);
                if k != last {
                    assert(self@[k] != self@[last]);
                }
            }
            assert(self@.remove(last) =~= self@.drop_last());
        }
        self.remove(id);
        id
    }

    /// Moves `id` from wherever it stands to the tail.
    pub fn move_to_back(&mut self, id: usize)
        requires
            old(self).wf(),
            old(self)@.contains(id),
        ensures
            final(self).wf(),
            final(self)@ == old(self)@.remove(old(self)@.index_of(id)).push(id),
    {
        self.remove(id);
        self.insert_back(id);
    }
}

} // verus!
