//! The allocator for one size class: the freelist of slabs, the counters and
//! the reclamation of slabs that have gone unused.

use crate::init::{InitKind, InitSystem};
use crate::layout::Layout;
use crate::list::{lemma_distinct_missing, LinkedList};
use crate::pool::SlabPool;
use crate::slab::Slab;
use crate::system::SlabSystem;
use crate::workingset::{elapsed, min_of, WorkingSet};
use vstd::prelude::*;

verus! {

/// How long a fully free slab must have gone unused before it is given up.
pub const WORKING_PERIOD_SECONDS: u64 = 15;

/// No slot could be handed out: there is no slab with a free slot, and no
/// region was supplied to start a new one.
#[derive(Clone, Copy, Debug, PartialEq, Eq, Structural)]
pub struct Exhausted;

/// The allocator for objects of one layout, over the slab family `S`.
pub struct SizedSlabAlloc<S: SlabSystem> {
    freelist: LinkedList,
    total_slabs: usize,
    num_full: usize,
    refcnt: usize,
    full_slab_working_set: WorkingSet,
    slab_system: S,
    init_system: InitSystem,
    layout: Layout,
}

/// Whether every slot of the live slab `id` of `pool` is free.
pub open spec fn slab_is_full(pool: SlabPool, id: usize) -> bool {
    pool.slabs()[id].free().len() == pool.spec_geometry().capacity
}

/// The number of fully free slabs among `list`.
pub open spec fn count_full(pool: SlabPool, list: Seq<usize>) -> nat
    decreases list.len(),
{
    if list.len() == 0 {
        0
    } else {
        count_full(pool, list.drop_last()) + if slab_is_full(pool, list.last()) {
            1nat
        } else {
            0nat
        }
    }
}

/// In a list whose last `n` slabs, and no others, are fully free, the fully
/// free slabs number `n`.
pub proof fn lemma_count_full(pool: SlabPool, list: Seq<usize>, n: nat)
    requires
        n <= list.len(),
        forall|k: int|
            0 <= k < list.len() ==> (slab_is_full(pool, #[trigger] list[k]) <==> k >= list.len()
                - n),
    ensures
        count_full(pool, list) == n,
    decreases list.len(),
{
    if list.len() > 0 {
        let rest = list.drop_last();
        let m = if n >= 1 { (n - 1) as nat } else { 0 };
        assert forall|k: int| 0 <= k < rest.len() implies (slab_is_full(pool, #[trigger] rest[k])
            <==> k >= rest.len() - m) by {
            assert(rest[k] == list[k]);
        }
        lemma_count_full(pool, rest, m);
        assert(list.last() == list[list.len() - 1]);
    }
}

/// Where a slab goes in the freelist after one of its slots came back:
///
/// | had no free slot | now fully free | action |
/// |---|---|---|
/// | no | no | stays where it is |
/// | no | yes | moves to the back |
/// | yes | no | is linked in at the front |
/// | yes | yes | is linked in at the back |
pub open spec fn relinked(list: Seq<usize>, id: usize, was_empty: bool, is_full: bool) -> Seq<
    usize,
> {
    if was_empty {
        if is_full {
            list.push(id)
        } else {
            seq![id] + list
        }
    } else if is_full {
        list.remove(list.index_of(id)).push(id)
    } else {
        list
    }
}

/// Linking a slab where its new state puts it keeps the freelist sound:
/// it still holds exactly the live slabs with a free slot, and the fully
/// free slabs are still exactly its last `full` ones.
proof fn lemma_relinked(
    old_pool: SlabPool,
    pool: SlabPool,
    old_list: Seq<usize>,
    list: Seq<usize>,
    slab: usize,
    was_empty: bool,
    is_full: bool,
    old_full: int,
    full: int,
)
    requires
        old_list.no_duplicates(),
        forall|k: int|
            0 <= k < old_list.len() ==> old_pool.slabs().contains_key(#[trigger] old_list[k])
                && old_pool.slabs()[old_list[k]].free().len() > 0,
        forall|id: usize| #[trigger]
            old_pool.slabs().contains_key(id) && old_pool.slabs()[id].free().len() > 0
                ==> old_list.contains(id),
        0 <= old_full <= old_list.len(),
        forall|k: int|
            0 <= k < old_list.len() ==> (slab_is_full(old_pool, #[trigger] old_list[k]) <==> k
                >= old_list.len() - old_full),
        pool.spec_geometry() == old_pool.spec_geometry(),
        pool.slabs().dom() == old_pool.slabs().dom(),
        forall|j: usize| #[trigger]
            old_pool.slabs().contains_key(j) && j != slab ==> pool.slabs()[j]
                == old_pool.slabs()[j],
        old_pool.slabs().contains_key(slab),
        pool.slabs()[slab].free().len() == old_pool.slabs()[slab].free().len() + 1,
        pool.slabs()[slab].free().len() <= pool.spec_geometry().capacity,
        was_empty == (old_pool.slabs()[slab].free().len() == 0),
        is_full == slab_is_full(pool, slab),
        list == relinked(old_list, slab, was_empty, is_full),
        full == if is_full {
            old_full + 1
        } else {
            old_full
        },
    ensures
        forall|k: int|
            0 <= k < list.len() ==> pool.slabs().contains_key(#[trigger] list[k])
                && pool.slabs()[list[k]].free().len() > 0,
        forall|id: usize| #[trigger]
            pool.slabs().contains_key(id) && pool.slabs()[id].free().len() > 0 ==> list.contains(
                id,
            ),
        0 <= full <= list.len(),
        forall|k: int|
            0 <= k < list.len() ==> (slab_is_full(pool, #[trigger] list[k]) <==> k >= list.len()
                - full),
{
    let n = old_list.len() as int;
    if old_list.contains(slab) {
        let p = choose|p: int| 0 <= p < old_list.len() && old_list[p] == slab;
        assert(old_pool.slabs()[old_list[p]].free().len() > 0);
    }
    let pos = old_list.index_of(slab);
    if !was_empty {
        assert(old_list.contains(slab));
        assert(old_list[pos] == slab);
        assert(!slab_is_full(old_pool, old_list[pos]));
    }
    // where each element of the new list stood in the old one, or -1 for `slab`
    let origin = |k: int|
        if was_empty {
            if is_full {
                if k == n {
                    -1
                } else {
                    k
                }
            } else {
                k - 1
            }
        } else if is_full {
            if k == n - 1 {
                -1
            } else if k < pos {
                k
            } else {
                k + 1
            }
        } else if k == pos {
            -1
        } else {
            k
        };
    assert forall|k: int| 0 <= k < list.len() implies (if origin(k) == -1 {
        #[trigger] list[k] == slab
    } else {
        0 <= origin(k) < n && list[k] == old_list[origin(k)] && list[k] != slab
    }) by {
        if origin(k) != -1 {
            if !was_empty {
                assert(old_list[origin(k)] != old_list[pos]);
            } else {
                assert(old_list.contains(old_list[origin(k)]));
            }
        }
    }
    assert forall|k: int| 0 <= k < list.len() implies pool.slabs().contains_key(
        #[trigger] list[k],
    ) && pool.slabs()[list[k]].free().len() > 0 by {
        if origin(k) != -1 {
            assert(old_pool.slabs().contains_key(old_list[origin(k)]));
        }
    }
    assert forall|j: usize| #[trigger]
        pool.slabs().contains_key(j) && pool.slabs()[j].free().len() > 0 implies list.contains(
        j,
    ) by {
        if j != slab {
            assert(old_pool.slabs().contains_key(j));
            let p = choose|p: int| 0 <= p < old_list.len() && old_list[p] == j;
            let k = if was_empty {
                if is_full {
                    p
                } else {
                    p + 1
                }
            } else if is_full {
                if p < pos {
                    p
                } else {
                    p - 1
                }
            } else {
                p
            };
            assert(origin(k) == p);
            assert(list[k] == j);
        } else {
            let k = if was_empty {
                if is_full {
                    n
                } else {
                    0
                }
            } else if is_full {
                n - 1
            } else {
                pos
            };
            assert(origin(k) == -1);
            assert(list[k] == slab);
        }
    }
    assert forall|k: int| 0 <= k < list.len() implies (slab_is_full(pool, #[trigger] list[k])
        <==> k >= list.len() - full) by {
        if origin(k) != -1 {
            assert(old_pool.slabs().contains_key(old_list[origin(k)]));
            assert(slab_is_full(old_pool, old_list[origin(k)]) <==> origin(k) >= n - old_full);
        }
    }
}

impl<S: SlabSystem> SizedSlabAlloc<S> {
    /// The slabs with a free slot, in the order in which they are preferred.
    pub closed spec fn freelist(&self) -> Seq<usize> {
        self.freelist@
    }

    /// The slabs of the allocator.
    pub closed spec fn pool(&self) -> SlabPool {
        self.slab_system.pool()
    }

    pub closed spec fn spec_total_slabs(&self) -> usize {
        self.total_slabs
    }

    pub closed spec fn spec_num_full(&self) -> usize {
        self.num_full
    }

    pub closed spec fn spec_refcnt(&self) -> usize {
        self.refcnt
    }

    /// The least number of fully free slabs seen in the current window.
    pub closed spec fn working_min(&self) -> usize {
        self.full_slab_working_set.spec_min()
    }

    /// When the current reclamation window began.
    pub closed spec fn window_start(&self) -> u64 {
        self.full_slab_working_set.spec_start()
    }

    pub closed spec fn spec_init_system(&self) -> InitSystem {
        self.init_system
    }

    pub closed spec fn spec_layout(&self) -> Layout {
        self.layout
    }

    /// The invariant that every operation keeps.
    pub closed spec fn wf(&self) -> bool {
        &&& self.wf_core()
        &&& self.full_slab_working_set.spec_min() <= self.num_full
    }

    /// Whether `other` has the same slabs, freelist, counters and window.
    pub open spec fn same_state(&self, other: &Self) -> bool {
        &&& self.freelist() == other.freelist()
        &&& self.pool() == other.pool()
        &&& self.spec_total_slabs() == other.spec_total_slabs()
        &&& self.spec_num_full() == other.spec_num_full()
        &&& self.spec_refcnt() == other.spec_refcnt()
        &&& self.working_min() == other.working_min()
        &&& self.window_start() == other.window_start()
        &&& self.spec_init_system() == other.spec_init_system()
        &&& self.spec_layout() == other.spec_layout()
    }

    /// Whether `other` has the same policy, layout and slab geometry.
    pub open spec fn same_config(&self, other: &Self) -> bool {
        &&& self.spec_init_system() == other.spec_init_system()
        &&& self.spec_layout() == other.spec_layout()
        &&& self.pool().spec_geometry() == other.pool().spec_geometry()
    }

    /// Whether `post` is `pre` after `region` was offered for a new slab and
    /// `ok` tells whether one was started. One is started exactly when there
    /// is a region and the pool accepts it; the new slab, fully free, is
    /// linked in at the back of the freelist. Otherwise nothing changes.
    pub open spec fn slab_started(pre: &Self, post: &Self, region: Option<usize>, ok: bool) -> bool {
        &&& ok == (region.is_some() && pre.pool().accepts(region.unwrap()))
        &&& !ok ==> post.same_state(pre)
        &&& ok ==> {
            let id = post.freelist().last();
            &&& post.freelist() == pre.freelist().push(id)
            &&& SlabPool::added(pre.pool(), post.pool(), id, region.unwrap())
            &&& post.spec_total_slabs() == pre.spec_total_slabs() + 1
            &&& post.spec_num_full() == pre.spec_num_full() + 1
            &&& post.spec_refcnt() == pre.spec_refcnt()
            &&& post.working_min() == pre.working_min()
            &&& post.window_start() == pre.window_start()
        }
    }

    /// Whether `post` is `pre` after every slab was given up, with `released`
    /// the base addresses of their regions in freelist order.
    pub open spec fn all_released(pre: &Self, post: &Self, released: Seq<usize>) -> bool {
        &&& post.freelist() == Seq::<usize>::empty()
        &&& post.pool().slabs() == Map::<usize, Slab>::empty()
        &&& post.pool().outstanding() == pre.pool().outstanding()
        &&& post.spec_total_slabs() == 0
        &&& post.spec_num_full() == 0
        &&& post.spec_refcnt() == 0
        &&& post.working_min() == 0
        &&& post.window_start() == pre.window_start()
        &&& released.len() == pre.spec_total_slabs()
        &&& released.len() == pre.freelist().len()
        &&& forall|i: int|
            0 <= i < released.len() ==> #[trigger] released[i]
                == pre.pool().slabs()[pre.freelist()[i]].spec_base()
    }

    /// Whether `post` is `pre` after a slot of the freelist's head was handed
    /// out at `addr`; `construct` tells whether an object must be constructed
    /// in the slot. A head that was fully free no longer is, which the window
    /// records; a head that has no free slot left leaves the freelist.
    pub open spec fn allocated_from_head(
        pre: &Self,
        post: &Self,
        addr: usize,
        construct: bool,
    ) -> bool {
        let id = pre.freelist()[0];
        let slab = pre.pool().slabs()[id];
        let cached = slab.cached(slab.free().last() as int);
        let was_full = slab_is_full(pre.pool(), id);
        &&& SlabPool::took(pre.pool(), post.pool(), id, addr, cached)
        &&& construct == pre.spec_init_system().spec_must_construct(cached)
        &&& post.freelist() == if slab.free().len() == 1 {
            pre.freelist().drop_first()
        } else {
            pre.freelist()
        }
        &&& post.spec_num_full() == if was_full {
            pre.spec_num_full() - 1
        } else {
            pre.spec_num_full() as int
        }
        &&& post.working_min() == if was_full {
            min_of(pre.working_min(), post.spec_num_full())
        } else {
            pre.working_min()
        }
        &&& post.window_start() == pre.window_start()
        &&& post.spec_refcnt() == pre.spec_refcnt() + 1
        &&& post.spec_total_slabs() == pre.spec_total_slabs()
    }

    /// Whether the reclamation window is over at `now`.
    pub open spec fn window_closed(&self, now: u64) -> bool {
        elapsed(self.window_start(), now) >= WORKING_PERIOD_SECONDS
    }

    /// Whether `post` is `pre` after a reclamation pass that gave up the
    /// regions `released`. When the window was `closed`, the pass gives up as
    /// many slabs as the window's minimum says, taken from the back of the
    /// freelist, last first, and begins a new window at `now`; when it was
    /// not, nothing changes.
    pub open spec fn collected(
        pre: &Self,
        post: &Self,
        released: Seq<usize>,
        closed: bool,
        now: u64,
    ) -> bool {
        let k = if closed {
            pre.working_min() as int
        } else {
            0
        };
        let list = pre.freelist();
        let keep = list.len() - k;
        &&& 0 <= keep
        &&& post.freelist() == list.take(keep)
        &&& released.len() == k
        &&& forall|i: int|
            0 <= i < k ==> #[trigger] released[i] == pre.pool().slabs()[list[list.len() - 1
                - i]].spec_base()
        &&& forall|j: usize| #[trigger]
            post.pool().slabs().contains_key(j) <==> pre.pool().slabs().contains_key(j)
                && !list.skip(keep).contains(j)
        &&& forall|j: usize| #[trigger]
            post.pool().slabs().contains_key(j) ==> post.pool().slabs()[j]
                == pre.pool().slabs()[j]
        &&& post.pool().outstanding() == pre.pool().outstanding()
        &&& post.pool().spec_color() == pre.pool().spec_color()
        &&& post.spec_total_slabs() == pre.spec_total_slabs() - k
        &&& post.spec_num_full() == pre.spec_num_full() - k
        &&& post.spec_refcnt() == pre.spec_refcnt()
        &&& post.working_min() == if closed {
            post.spec_num_full()
        } else {
            pre.working_min()
        }
        &&& post.window_start() == if closed {
            now
        } else {
            pre.window_start()
        }
    }

    /// Whether `post` is `pre` after the slot at `addr` came back, before any
    /// reclamation: the slot is free again in its slab, and the slab is
    /// linked where its new state puts it.
    pub open spec fn returned(pre: &Self, post: &Self, addr: usize) -> bool {
        let id = pre.pool().owner(addr as int);
        let slab = pre.pool().slabs()[id];
        let was_empty = slab.free().len() == 0;
        let is_full = slab.free().len() + 1 == pre.pool().spec_geometry().capacity;
        &&& SlabPool::gave_back(
            pre.pool(),
            post.pool(),
            id,
            addr,
            pre.spec_init_system().spec_status_initialized(),
            was_empty,
        )
        &&& post.freelist() == relinked(pre.freelist(), id, was_empty, is_full)
        &&& post.spec_num_full() == if is_full {
            pre.spec_num_full() + 1
        } else {
            pre.spec_num_full() as int
        }
        &&& post.spec_refcnt() == pre.spec_refcnt() - 1
        &&& post.spec_total_slabs() == pre.spec_total_slabs()
        &&& post.working_min() == pre.working_min()
        &&& post.window_start() == pre.window_start()
    }

    /// Whether `post` is `pre` after the slot at `addr` came back at time
    /// `now` and the regions `released` were given up. The slot is free again
    /// in its slab, which is linked where its new state puts it. If the slab
    /// is now fully free and the window is over, as many slabs as the
    /// window's minimum says leave from the back of the freelist, last
    /// first, and a new window begins.
    pub open spec fn deallocated(
        pre: &Self,
        post: &Self,
        addr: usize,
        now: u64,
        released: Seq<usize>,
    ) -> bool {
        let id = pre.pool().owner(addr as int);
        let slab = pre.pool().slabs()[id];
        let after = post.pool().slabs()[id];
        let index = slab.index_of_addr(addr as int).unwrap();
        let was_empty = slab.free().len() == 0;
        let is_full = slab.free().len() + 1 == pre.pool().spec_geometry().capacity;
        let list = relinked(pre.freelist(), id, was_empty, is_full);
        let closed = is_full && pre.window_closed(now);
        let k = if closed {
            pre.working_min() as int
        } else {
            0
        };
        let keep = list.len() - k;
        let full_now = if is_full {
            pre.spec_num_full() + 1
        } else {
            pre.spec_num_full() as int
        };
        &&& 0 <= keep
        &&& post.freelist() == list.take(keep)
        &&& released.len() == k
        &&& forall|i: int|
            0 <= i < k ==> #[trigger] released[i] == pre.pool().slabs()[list[list.len() - 1
                - i]].spec_base()
        &&& forall|j: usize| #[trigger]
            post.pool().slabs().contains_key(j) <==> pre.pool().slabs().contains_key(j)
                && !list.skip(keep).contains(j)
        &&& forall|j: usize| #[trigger]
            post.pool().slabs().contains_key(j) && j != id ==> post.pool().slabs()[j]
                == pre.pool().slabs()[j]
        &&& post.pool().slabs().contains_key(id) ==> {
            &&& after.spec_base() == slab.spec_base()
            &&& after.spec_slots_start() == slab.spec_slots_start()
            &&& after.spec_object_size() == slab.spec_object_size()
            &&& after.spec_capacity() == slab.spec_capacity()
            &&& after.free() == slab.free().push(index as usize)
            &&& forall|i: int|
                after.cached(i) == (if i == index {
                    pre.spec_init_system().spec_status_initialized()
                } else {
                    slab.cached(i)
                })
        }
        &&& post.pool().outstanding() == pre.pool().outstanding().remove(addr as int)
        &&& post.pool().spec_color() == pre.pool().spec_color()
        &&& post.spec_total_slabs() == pre.spec_total_slabs() - k
        &&& post.spec_num_full() == full_now - k
        &&& post.spec_refcnt() == pre.spec_refcnt() - 1
        &&& post.working_min() == if closed {
            post.spec_num_full()
        } else {
            pre.working_min()
        }
        &&& post.window_start() == if closed {
            now
        } else {
            pre.window_start()
        }
    }

    /// The invariant of the freelist and the counters: all of `wf` but the
    /// bound on the window's minimum.
    closed spec fn wf_core(&self) -> bool {
        let pool = self.slab_system.pool();
        let list = self.freelist@;
        &&& self.slab_system.wf()
        &&& self.freelist.wf()
        &&& pool.spec_geometry().object_size == self.layout.size()
        &&& pool.spec_geometry().align == self.layout.align()
        &&& forall|k: int|
            0 <= k < list.len() ==> pool.slabs().contains_key(#[trigger] list[k])
                && pool.slabs()[list[k]].free().len() > 0
        &&& forall|id: usize| #[trigger]
            pool.slabs().contains_key(id) && pool.slabs()[id].free().len() > 0 ==> list.contains(
                id,
            )
        &&& self.num_full <= list.len()
        &&& forall|k: int|
            0 <= k < list.len() ==> (slab_is_full(pool, #[trigger] list[k]) <==> k >= list.len()
                - self.num_full)
        &&& self.total_slabs == pool.slabs().dom().len()
        &&& self.refcnt == pool.outstanding().len()
    }

    /// What the invariant says of the freelist and the counters:
    /// every slab in the freelist is live and has between one and all of its
    /// slots free, and no slab is listed twice; every live slab with a free
    /// slot is in the freelist; the slabs with all slots free are exactly the
    /// last `num_full` of the freelist, so partial slabs precede them;
    /// `total_slabs` counts the live slabs, `refcnt` the slots handed out;
    /// and the window's minimum does not exceed `num_full`.
    pub proof fn lemma_invariants(&self)
        requires
            self.wf(),
        ensures
            self.pool().wf(),
            self.pool().spec_geometry().object_size == self.spec_layout().size(),
            self.pool().spec_geometry().align == self.spec_layout().align(),
            self.freelist().no_duplicates(),
            forall|k: int|
                0 <= k < self.freelist().len() ==> {
                    &&& self.pool().slabs().contains_key(#[trigger] self.freelist()[k])
                    &&& 0 < self.pool().slabs()[self.freelist()[k]].free().len()
                        <= self.pool().spec_geometry().capacity
                },
            forall|id: usize| #[trigger]
                self.pool().slabs().contains_key(id) && self.pool().slabs()[id].free().len() > 0
                    ==> self.freelist().contains(id),
            self.spec_num_full() <= self.freelist().len(),
            forall|k: int|
                0 <= k < self.freelist().len() ==> (slab_is_full(
                    self.pool(),
                    #[trigger] self.freelist()[k],
                ) <==> k >= self.freelist().len() - self.spec_num_full()),
            forall|i: int, j: int|
                0 <= i < j < self.freelist().len() && slab_is_full(
                    self.pool(),
                    #[trigger] self.freelist()[i],
                ) ==> slab_is_full(self.pool(), #[trigger] self.freelist()[j]),
            self.spec_num_full() == count_full(self.pool(), self.freelist()),
            self.spec_total_slabs() == self.pool().slabs().dom().len(),
            self.spec_refcnt() == self.pool().outstanding().len(),
            self.working_min() <= self.spec_num_full(),
    {
        self.slab_system.lemma_pool_wf();
        self.pool().lemma_wf();
        self.freelist.lemma_no_duplicates();
        assert forall|k: int| 0 <= k < self.freelist().len() implies {
            &&& self.pool().slabs().contains_key(#[trigger] self.freelist()[k])
            &&& 0 < self.pool().slabs()[self.freelist()[k]].free().len()
                <= self.pool().spec_geometry().capacity
        } by {
            let id = self.freelist()[k];
            assert(self.pool().slabs().contains_key(id));
            assert(self.pool().slab_ok(self.pool().slabs()[id]));
            self.pool().slabs()[id].lemma_wf();
        }
        lemma_count_full(self.pool(), self.freelist(), self.num_full as nat);
    }

    /// Every live slab either is in the freelist or has no free slot, so
    /// `total_slabs` is the length of the freelist plus the number of live
    /// slabs without a free slot.
    pub proof fn lemma_total_slabs(&self)
        requires
            self.wf(),
        ensures
            self.spec_total_slabs() == self.freelist().len() + self.pool().slabs().dom().filter(
                |id: usize| self.pool().slabs()[id].free().len() == 0,
            ).len(),
    {
        self.lemma_invariants();
        let list = self.freelist();
        let pool = self.pool();
        pool.lemma_wf();
        let listed = list.to_set();
        let empties = pool.slabs().dom().filter(|id: usize| pool.slabs()[id].free().len() == 0);
        assert(listed + empties =~= pool.slabs().dom()) by {
            assert forall|j: usize| (listed + empties).contains(j) <==> pool.slabs().dom().contains(
                j,
            ) by {
                if list.contains(j) {
                    let k = choose|k: int| 0 <= k < list.len() && list[k] == j;
                    assert(pool.slabs().contains_key(list[k]));
                }
                if pool.slabs().contains_key(j) && pool.slabs()[j].free().len() > 0 {
                    assert(list.contains(j));
                }
            }
        }
        assert(listed.disjoint(empties)) by {
            assert forall|j: usize| !(listed.contains(j) && empties.contains(j)) by {
                if list.contains(j) {
                    let k = choose|k: int| 0 <= k < list.len() && list[k] == j;
                    assert(pool.slabs()[list[k]].free().len() > 0);
                }
            }
        }
        vstd::set_lib::lemma_len_subset(listed, pool.slabs().dom());
        vstd::set_lib::lemma_len_subset(empties, pool.slabs().dom());
        vstd::set_lib::lemma_set_disjoint_lens(listed, empties);
        list.unique_seq_to_set();
    }

    /// Handing out a slot and taking it back balances the counters: `refcnt`
    /// and the set of slots handed out are as before, and so are
    /// `total_slabs` and `num_full` but for the slabs that the reclamation
    /// pass gave up.
    pub proof fn lemma_round_trip(
        s0: &Self,
        s1: &Self,
        s2: &Self,
        addr: usize,
        construct: bool,
        now: u64,
        released: Seq<usize>,
    )
        requires
            s0.wf(),
            s1.wf(),
            s0.freelist().len() > 0,
            Self::allocated_from_head(s0, s1, addr, construct),
            Self::deallocated(s1, s2, addr, now, released),
        ensures
            s2.spec_refcnt() == s0.spec_refcnt(),
            s2.pool().outstanding() == s0.pool().outstanding(),
            s2.spec_total_slabs() + released.len() == s0.spec_total_slabs(),
            s2.spec_num_full() + released.len() == s0.spec_num_full(),
    {
        s0.lemma_invariants();
        s1.lemma_invariants();
        let id = s0.freelist()[0];
        let before = s0.pool().slabs()[id];
        let after = s1.pool().slabs()[id];
        let last = before.free().last();
        s0.pool().lemma_wf();
        s1.pool().lemma_wf();
        assert(s0.pool().slabs().contains_key(id));
        assert(s1.pool().slabs().contains_key(id));
        assert(s0.pool().slab_ok(before));
        assert(s1.pool().slab_ok(after));
        before.lemma_wf();
        after.lemma_index_of_addr(addr as int, last as int);
        if after.free().contains(last) {
            let k = choose|k: int| 0 <= k < after.free().len() && after.free()[k] == last;
            assert(before.free()[k] == before.free()[before.free().len() - 1]);
        }
        assert(s1.pool().held(addr as int, id));
        s1.pool().lemma_owner(addr as int, id);
        assert(s0.pool().outstanding().insert(addr as int).remove(addr as int)
            =~= s0.pool().outstanding());
    }

    /// A slot that came back and is handed out again needs no construction,
    /// under any policy that constructs objects: the object made for its
    /// first owner is still there. So however often a slot goes round, an
    /// object is constructed in it once.
    pub proof fn lemma_cached_slot_needs_no_construction(
        s1: &Self,
        s2: &Self,
        s3: &Self,
        addr: usize,
        now: u64,
        released: Seq<usize>,
        construct: bool,
    )
        requires
            s1.wf(),
            s2.wf(),
            s2.same_config(s1),
            s1.spec_init_system().spec_kind() != InitKind::Nop,
            s1.pool().outstanding().contains(addr as int),
            Self::deallocated(s1, s2, addr, now, released),
            s2.freelist().len() > 0,
            Self::allocated_from_head(s2, s3, addr, construct),
        ensures
            !construct,
    {
        s1.lemma_invariants();
        s2.lemma_invariants();
        s1.pool().lemma_wf();
        s2.pool().lemma_wf();
        let id = s1.pool().owner(addr as int);
        assert(s1.pool().held(addr as int, id));
        s1.pool().lemma_held_in_region(addr as int, id);
        let head = s2.freelist()[0];
        assert(s2.pool().slabs().contains_key(head));
        let slab = s2.pool().slabs()[head];
        assert(s2.pool().slab_ok(slab));
        slab.lemma_wf();
        let last = slab.free().last();
        assert(slab.free()[slab.free().len() - 1] == last);
        s2.pool().lemma_slot_in_region(head, last as int);
        if head != id {
            assert(s1.pool().slabs().contains_key(head));
            assert(s1.pool().in_region(addr as int, head));
        }
        let before = s1.pool().slabs()[id];
        assert(s1.pool().slab_ok(before));
        let index = before.index_of_addr(addr as int).unwrap();
        before.lemma_index_of_addr(addr as int, index);
        slab.lemma_index_of_addr(addr as int, index);
        slab.lemma_index_of_addr(addr as int, last as int);
    }

    /// A reclamation pass at the end of a window gives up exactly as many
    /// slabs as the least number that were fully free at any moment of the
    /// window, and so leaves none fully free exactly when that many are
    /// fully free now.
    pub proof fn lemma_reclamation_bound(pre: &Self, post: &Self, released: Seq<usize>, now: u64)
        requires
            pre.wf(),
            Self::collected(pre, post, released, true, now),
        ensures
            released.len() == pre.working_min(),
            released.len() <= pre.spec_num_full(),
            post.spec_num_full() == pre.spec_num_full() - pre.working_min(),
            post.spec_total_slabs() == pre.spec_total_slabs() - pre.working_min(),
            post.spec_num_full() == 0 <==> pre.working_min() == pre.spec_num_full(),
            post.working_min() == post.spec_num_full(),
            post.window_start() == now,
    {
        pre.lemma_invariants();
    }

    /// An allocator without slabs. Its reclamation window begins at `now`.
    pub fn new(init: InitSystem, layout: Layout, slabs: S, now: u64) -> (a: SizedSlabAlloc<S>)
        requires
            slabs.wf(),
            slabs.pool().slabs() == Map::<usize, Slab>::empty(),
            slabs.pool().outstanding() == Set::<int>::empty(),
            slabs.pool().spec_geometry().object_size == layout.size(),
            slabs.pool().spec_geometry().align == layout.align(),
        ensures
            a.wf(),
            a.pool() == slabs.pool(),
            a.freelist() == Seq::<usize>::empty(),
            a.spec_total_slabs() == 0,
            a.spec_num_full() == 0,
            a.spec_refcnt() == 0,
            a.working_min() == 0,
            a.window_start() == now,
            a.spec_init_system() == init,
            a.spec_layout() == layout,
    {
        let a = SizedSlabAlloc {
            freelist: LinkedList::new(),
            total_slabs: 0,
            num_full: 0,
            refcnt: 0,
            full_slab_working_set: WorkingSet::new(0, now),
            slab_system: slabs,
            init_system: init,
            layout,
        };
        proof {
            assert(slabs.pool().slabs().dom() =~= Set::<usize>::empty());
        }
        a
    }

    #[verifier::when_used_as_spec(spec_layout)]
    pub fn layout(&self) -> (l: Layout)
        ensures
            l == self.spec_layout(),
    {
        self.layout
    }

    #[verifier::when_used_as_spec(spec_init_system)]
    pub fn init_system(&self) -> (i: InitSystem)
        ensures
            i == self.spec_init_system(),
    {
        self.init_system
    }

    #[verifier::when_used_as_spec(spec_total_slabs)]
    pub fn total_slabs(&self) -> (n: usize)
        ensures
            n == self.spec_total_slabs(),
    {
        self.total_slabs
    }

    #[verifier::when_used_as_spec(spec_num_full)]
    pub fn num_full(&self) -> (n: usize)
        ensures
            n == self.spec_num_full(),
    {
        self.num_full
    }

    #[verifier::when_used_as_spec(spec_refcnt)]
    pub fn refcnt(&self) -> (n: usize)
        ensures
            n == self.spec_refcnt(),
    {
        self.refcnt
    }

    /// The size and the alignment of the regions the backing allocator must
    /// supply.
    pub fn region_layout(&self) -> (r: (usize, usize))
        requires
            self.wf(),
        ensures
            r.0 == self.pool().spec_geometry().region_size,
            r.1 == self.pool().spec_geometry().region_align,
    {
        self.slab_system.region_layout()
    }

    /// The number of slabs in the freelist.
    pub fn freelist_len(&self) -> (n: usize)
        requires
            self.wf(),
        ensures
            n == self.freelist().len(),
    {
        self.freelist.size()
    }

    /// Whether a new slab is needed before a slot can be handed out: no slab
    /// has a free slot.
    pub fn needs_slab(&self) -> (r: bool)
        requires
            self.wf(),
        ensures
            r == (self.freelist().len() == 0),
    {
        self.freelist.size() == 0
    }

    /// Whether `addr` is a slot that this allocator has handed out.
    pub fn owns(&self, addr: usize) -> (r: bool)
        requires
            self.wf(),
        ensures
            r == self.pool().outstanding().contains(addr as int),
    {
        self.slab_system.owns(addr)
    }

    /// Starts a slab in `region`, the base address of a fresh backing region
    /// or `None` when the backing allocator had none to give, and links it
    /// in at the back of the freelist. Returns whether a slab was started; it
    /// is not when there is no region or the pool does not accept it, and
    /// then nothing changes.
    pub fn alloc_slab(&mut self, region: Option<usize>) -> (ok: bool)
        requires
            old(self).wf(),
        ensures
            final(self).wf(),
            final(self).same_config(old(self)),
            Self::slab_started(old(self), final(self), region, ok),
    {
        let ghost pre = *self;
        proof {
            pre.lemma_invariants();
        }
        match self.slab_system.alloc_slab(region) {
            None => false,
            Some(id) => {
                proof {
                    if pre.freelist().contains(id) {
                        let k = choose|k: int|
                            0 <= k < pre.freelist().len() && pre.freelist()[k] == id;
                        assert(pre.pool().slabs().contains_key(pre.freelist()[k]));
                    }
                }
                self.freelist.insert_back(id);
                proof {
                    self.freelist.lemma_no_duplicates();
                }
                self.total_slabs = self.total_slabs + 1;
                self.num_full = self.num_full + 1;
                proof {
                    let pool = self.pool();
                    let list = self.freelist();
                    let old_list = pre.freelist();
                    self.slab_system.lemma_pool_wf();
                    pool.lemma_wf();
                    assert(list[list.len() - 1] == id);
                    assert(list.last() == id);
                    assert(pool.slabs().contains_key(id));
                    assert(slab_is_full(pool, id));
                    assert forall|k: int| 0 <= k < list.len() implies pool.slabs().contains_key(
                        #[trigger] list[k],
                    ) && pool.slabs()[list[k]].free().len() > 0 by {
                        if k < old_list.len() {
                            assert(list[k] == old_list[k]);
                            assert(pre.pool().slabs().contains_key(old_list[k]));
                        }
                    }
                    assert forall|j: usize| #[trigger]
                        pool.slabs().contains_key(j) && pool.slabs()[j].free().len()
                            > 0 implies list.contains(j) by {
                        if j != id {
                            assert(pre.pool().slabs().contains_key(j));
                            let k = choose|k: int| 0 <= k < old_list.len() && old_list[k] == j;
                            assert(list[k] == j);
                        }
                    }
                    assert forall|k: int| 0 <= k < list.len() implies (slab_is_full(
                        pool,
                        #[trigger] list[k],
                    ) <==> k >= list.len() - self.num_full) by {
                        if k < old_list.len() {
                            assert(list[k] == old_list[k]);
                            assert(pre.pool().slabs().contains_key(old_list[k]));
                        }
                    }
                }
                true
            },
        }
    }

    /// Hands out a slot of the slab at the head of the freelist. Returns the
    /// slot's address and whether an object must be constructed in it, or
    /// `Exhausted`, with nothing changed, when the freelist is empty.
    pub fn allocate(&mut self) -> (r: Result<(usize, bool), Exhausted>)
        requires
            old(self).wf(),
        ensures
            final(self).wf(),
            final(self).same_config(old(self)),
            r.is_err() <==> old(self).freelist().len() == 0,
            r.is_err() ==> final(self).same_state(old(self)),
            r.is_ok() ==> Self::allocated_from_head(
                old(self),
                final(self),
                r.unwrap().0,
                r.unwrap().1,
            ),
            r.is_ok() ==> r.unwrap().0 > 0 && r.unwrap().0 as int % (old(
                self,
            ).spec_layout().align() as int) == 0,
    {
        let ghost pre = *self;
        proof {
            pre.lemma_invariants();
        }
        if self.freelist.size() == 0 {
            return Err(Exhausted);
        }
        let slab = self.freelist.peek_front();
        proof {
            assert(pre.pool().slabs().contains_key(pre.freelist()[0]));
        }
        let was_full = self.slab_system.is_full(slab);
        if was_full {
            self.num_full = self.num_full - 1;
            self.full_slab_working_set.update_min(self.num_full);
        }
        let (obj, cached) = self.slab_system.allocate(slab);
        let emptied = self.slab_system.is_empty(slab);
        if emptied {
            let _ = self.freelist.remove_front();
        }
        proof {
            self.slab_system.lemma_pool_wf();
            pre.pool().lemma_outstanding_bounded();
            self.pool().lemma_outstanding_bounded();
            assert(self.pool().outstanding().contains(obj as int));
            self.pool().lemma_outstanding_aligned(obj as int);
        }
        self.refcnt = self.refcnt + 1;
        proof {
            let pool = self.pool();
            let list = self.freelist();
            let old_list = pre.freelist();
            let old_pool = pre.pool();
            pool.lemma_wf();
            old_pool.lemma_wf();
            assert(pool.slab_ok(pool.slabs()[slab]));
            assert(old_pool.slab_ok(old_pool.slabs()[slab]));
            old_pool.slabs()[slab].lemma_wf();
            let shift: int = if emptied { 1 } else { 0 };
            assert forall|k: int| 0 <= k < list.len() implies list[k] == old_list[k + shift] by {}
            assert forall|k: int| 0 <= k < list.len() implies pool.slabs().contains_key(
                #[trigger] list[k],
            ) && pool.slabs()[list[k]].free().len() > 0 by {
                assert(list[k] == old_list[k + shift]);
                assert(old_pool.slabs().contains_key(old_list[k + shift]));
                if k + shift != 0 {
                    assert(old_list[k + shift] != old_list[0]);
                }
            }
            assert forall|j: usize| #[trigger]
                pool.slabs().contains_key(j) && pool.slabs()[j].free().len()
                    > 0 implies list.contains(j) by {
                assert(old_pool.slabs().contains_key(j));
                if j != slab {
                    assert(old_list.contains(j));
                    let k = choose|k: int| 0 <= k < old_list.len() && old_list[k] == j;
                    assert(list[k - shift] == j);
                } else {
                    assert(list[0] == j);
                }
            }
            assert forall|k: int| 0 <= k < list.len() implies (slab_is_full(
                pool,
                #[trigger] list[k],
            ) <==> k >= list.len() - self.num_full) by {
                assert(list[k] == old_list[k + shift]);
                assert(old_pool.slabs().contains_key(old_list[k + shift]));
                if k + shift != 0 {
                    assert(old_list[k + shift] != old_list[0]);
                }
            }
        }
        Ok((obj, self.init_system.must_construct(cached)))
    }

    /// Gives up the slabs that have gone unused for a whole window. If the
    /// window is over at `now`, as many slabs as the window's minimum says
    /// are unlinked from the back of the freelist and given up, and a new
    /// window begins at `now`. Returns the base addresses of the regions
    /// given up, for the backing allocator to release.
    pub fn garbage_collect_slabs(&mut self, now: u64) -> (released: Vec<usize>)
        requires
            old(self).wf(),
        ensures
            final(self).wf(),
            final(self).same_config(old(self)),
            Self::collected(old(self), final(self), released@, old(self).window_closed(now), now),
    {
        let ghost pre = *self;
        let ghost pre_list = self.freelist@;
        let ghost pre_pool = self.slab_system.pool();
        let ghost len = pre_list.len() as int;
        let mut released: Vec<usize> = Vec::new();
        proof {
            pre.lemma_invariants();
            assert(pre_list.take(len) =~= pre_list);
        }
        match self.full_slab_working_set.refresh(WORKING_PERIOD_SECONDS, now) {
            Some(min_full) => {
                let mut i: usize = 0;
                while i < min_full
                    invariant
                        self.wf_core(),
                        i <= min_full <= pre.num_full <= len,
                        pre_list.len() == len,
                        pre_list.no_duplicates(),
                        self.init_system == pre.init_system,
                        self.layout == pre.layout,
                        self.slab_system.pool().spec_geometry() == pre_pool.spec_geometry(),
                        self.freelist@ == pre_list.take(len - i),
                        self.num_full == pre.num_full - i,
                        self.total_slabs == pre.total_slabs - i,
                        self.refcnt == pre.refcnt,
                        self.full_slab_working_set.spec_min() == pre.working_min(),
                        self.full_slab_working_set.spec_start() == now,
                        released@.len() == i,
                        forall|t: int|
                            0 <= t < i ==> #[trigger] released@[t] == pre_pool.slabs()[pre_list[len
                                - 1 - t]].spec_base(),
                        forall|j: usize| #[trigger]
                            self.slab_system.pool().slabs().contains_key(j)
                                <==> pre_pool.slabs().contains_key(j) && !pre_list.skip(
                                len - i,
                            ).contains(j),
                        forall|j: usize| #[trigger]
                            self.slab_system.pool().slabs().contains_key(j)
                                ==> self.slab_system.pool().slabs()[j] == pre_pool.slabs()[j],
                        self.slab_system.pool().outstanding() == pre_pool.outstanding(),
                        self.slab_system.pool().spec_color() == pre_pool.spec_color(),
                    decreases min_full - i,
                {
                    let ghost before_pool = self.slab_system.pool();
                    let ghost before_list = self.freelist@;
                    proof {
                        self.slab_system.lemma_pool_wf();
                        before_pool.lemma_wf();
                        let last = before_list.len() - 1;
                        assert(before_pool.slabs().contains_key(before_list[last]));
                        assert(slab_is_full(before_pool, before_list[last]));
                        assert(before_pool.slab_ok(before_pool.slabs()[before_list[last]]));
                    }
                    let slab = self.freelist.remove_back();
                    let base = self.slab_system.dealloc_slab(slab);
                    released.push(base);
                    self.total_slabs = self.total_slabs - 1;
                    self.num_full = self.num_full - 1;
                    i = i + 1;
                    proof {
                        let pool = self.slab_system.pool();
                        let list = self.freelist@;
                        assert(list =~= pre_list.take(len - i));
                        assert(slab == pre_list[len - i]);
                        assert forall|k: int|
                            0 <= k < list.len() implies pool.slabs().contains_key(
                            #[trigger] list[k],
                        ) && pool.slabs()[list[k]].free().len() > 0 by {
                            assert(list[k] == before_list[k]);
                            assert(before_pool.slabs().contains_key(before_list[k]));
                            assert(before_list[k] != before_list[before_list.len() - 1]);
                        }
                        assert forall|j: usize| #[trigger]
                            pool.slabs().contains_key(j) && pool.slabs()[j].free().len()
                                > 0 implies list.contains(j) by {
                            assert(before_pool.slabs().contains_key(j));
                            let k = choose|k: int|
                                0 <= k < before_list.len() && before_list[k] == j;
                            assert(list[k] == j);
                        }
                        assert forall|k: int| 0 <= k < list.len() implies (slab_is_full(
                            pool,
                            #[trigger] list[k],
                        ) <==> k >= list.len() - self.num_full) by {
                            assert(list[k] == before_list[k]);
                            assert(before_pool.slabs().contains_key(before_list[k]));
                            assert(before_list[k] != before_list[before_list.len() - 1]);
                        }
                        assert forall|j: usize| #[trigger]
                            pool.slabs().contains_key(j) <==> pre_pool.slabs().contains_key(j)
                                && !pre_list.skip(len - i).contains(j) by {
                            let now_skipped = pre_list.skip(len - i);
                            let was_skipped = pre_list.skip(len - i + 1);
                            assert(now_skipped[0] == slab);
                            if was_skipped.contains(j) {
                                let t = choose|t: int|
                                    0 <= t < was_skipped.len() && was_skipped[t] == j;
                                assert(now_skipped[t + 1] == j);
                            }
                            if now_skipped.contains(j) && j != slab {
                                let t = choose|t: int|
                                    0 <= t < now_skipped.len() && now_skipped[t] == j;
                                assert(was_skipped[t - 1] == j);
                            }
                            assert(before_pool.slabs().contains_key(j) <==> pre_pool.slabs().contains_key(
                                j,
                            ) && !was_skipped.contains(j));
                        }
                        assert forall|j: usize| #[trigger]
                            pool.slabs().contains_key(j) implies pool.slabs()[j]
                            == pre_pool.slabs()[j] by {
                            assert(before_pool.slabs().contains_key(j));
                        }
                        assert forall|t: int| 0 <= t < i implies #[trigger] released@[t]
                            == pre_pool.slabs()[pre_list[len - 1 - t]].spec_base() by {
                            if t == i - 1 {
                                assert(before_pool.slabs().contains_key(slab));
                            }
                        }
                    }
                }
                self.full_slab_working_set.set(self.num_full, now);
                released
            },
            None => {
                proof {
                    assert forall|j: usize| #[trigger]
                        pre_pool.slabs().contains_key(j) implies !pre_list.skip(len).contains(
                        j,
                    ) by {}
                }
                released
            },
        }
    }

    /// Takes the slot at `addr` back and links its slab where the slab's new
    /// state puts it. Returns whether the slab is now fully free.
    fn dealloc_slot(&mut self, addr: usize) -> (is_full: bool)
        requires
            old(self).wf(),
            old(self).pool().outstanding().contains(addr as int),
        ensures
            final(self).wf(),
            final(self).same_config(old(self)),
            Self::returned(old(self), final(self), addr),
            is_full == (old(self).pool().slabs()[old(self).pool().owner(
                addr as int,
            )].free().len() + 1 == old(self).pool().spec_geometry().capacity),
            old(self).pool().held(addr as int, old(self).pool().owner(addr as int)),
    {
        let ghost pre = *self;
        let ghost old_list = self.freelist@;
        let ghost old_pool = self.slab_system.pool();
        proof {
            pre.lemma_invariants();
            old_pool.lemma_wf();
            old_pool.lemma_outstanding_bounded();
        }
        let (slab, was_empty) = self.slab_system.dealloc(
            addr,
            self.init_system.status_initialized(),
        );
        proof {
            old_pool.lemma_owner(addr as int, slab);
            self.slab_system.lemma_pool_wf();
            self.slab_system.pool().lemma_wf();
            assert(old_pool.slab_ok(old_pool.slabs()[slab]));
            assert(self.slab_system.pool().slabs().contains_key(slab));
            assert(self.slab_system.pool().slab_ok(self.slab_system.pool().slabs()[slab]));
            old_pool.slabs()[slab].lemma_wf();
            self.slab_system.pool().slabs()[slab].lemma_wf();
            if old_list.contains(slab) {
                let p = choose|p: int| 0 <= p < old_list.len() && old_list[p] == slab;
                assert(old_pool.slabs()[old_list[p]].free().len() > 0);
            }
        }
        let is_full = self.slab_system.is_full(slab);
        let ghost pos = old_list.index_of(slab);
        if was_empty {
            if is_full {
                self.freelist.insert_back(slab);
                proof {
                    self.freelist.lemma_no_duplicates();
                }
                self.num_full = self.num_full + 1;
            } else {
                self.freelist.insert_front(slab);
            }
        } else {
            proof {
                assert(old_list.contains(slab));
                assert(old_list[pos] == slab);
                assert(!slab_is_full(old_pool, old_list[pos]));
            }
            if is_full {
                proof {
                    self.freelist.lemma_no_duplicates();
                }
                self.freelist.move_to_back(slab);
                self.num_full = self.num_full + 1;
            }
        }
        self.refcnt = self.refcnt - 1;
        proof {
            lemma_relinked(
                old_pool,
                self.slab_system.pool(),
                old_list,
                self.freelist@,
                slab,
                was_empty,
                is_full,
                pre.num_full as int,
                self.num_full as int,
            );
        }
        is_full
    }

    /// Takes back the slot at `addr`, which this allocator handed out and
    /// which has not come back since, at time `now`. The slot is recorded as
    /// holding a constructed object if the policy keeps objects across
    /// owners. If the slot's slab is fully free now, a reclamation pass
    /// follows. Returns the base addresses of the regions given up, for the
    /// backing allocator to release.
    pub fn dealloc(&mut self, addr: usize, now: u64) -> (released: Vec<usize>)
        requires
            old(self).wf(),
            old(self).pool().outstanding().contains(addr as int),
        ensures
            final(self).wf(),
            final(self).same_config(old(self)),
            Self::deallocated(old(self), final(self), addr, now, released@),
    {
        let ghost pre = *self;
        proof {
            pre.lemma_invariants();
            pre.pool().lemma_wf();
        }
        let is_full = self.dealloc_slot(addr);
        let ghost mid = *self;
        let released = if is_full {
            self.garbage_collect_slabs(now)
        } else {
            Vec::new()
        };
        proof {
            let id = pre.pool().owner(addr as int);
            let list = mid.freelist();
            let k = released@.len() as int;
            let keep = list.len() - k;
            mid.lemma_invariants();
            if !is_full {
                assert(list.take(list.len() as int) =~= list);
            }
            assert forall|i: int| 0 <= i < k implies #[trigger] released@[i]
                == pre.pool().slabs()[list[list.len() - 1 - i]].spec_base() by {
                let j = list[list.len() - 1 - i];
                assert(mid.pool().slabs().contains_key(j));
                assert(pre.pool().slabs().contains_key(j));
            }
            assert forall|j: usize| #[trigger]
                self.pool().slabs().contains_key(j) <==> pre.pool().slabs().contains_key(j)
                    && !list.skip(keep).contains(j) by {
                assert(mid.pool().slabs().contains_key(j) <==> pre.pool().slabs().contains_key(j));
            }
            assert forall|j: usize| #[trigger]
                self.pool().slabs().contains_key(j) && j != id implies self.pool().slabs()[j]
                == pre.pool().slabs()[j] by {
                assert(mid.pool().slabs().contains_key(j));
                assert(pre.pool().slabs().contains_key(j));
            }
        }
        released
    }

    /// Gives up every slab, for an allocator none of whose slots is handed
    /// out. Returns the base addresses of the regions, in freelist order, for
    /// the backing allocator to release.
    pub fn release_all(&mut self) -> (released: Vec<usize>)
        requires
            old(self).wf(),
            old(self).spec_refcnt() == 0,
        ensures
            final(self).wf(),
            final(self).same_config(old(self)),
            Self::all_released(old(self), final(self), released@),
    {
        let ghost pre = *self;
        let ghost pre_list = self.freelist@;
        let ghost pre_pool = self.slab_system.pool();
        let ghost len = pre_list.len() as int;
        proof {
            pre.lemma_invariants();
            pre_pool.lemma_wf();
            pre.lemma_idle_all_full();
            assert(pre_list.skip(0) =~= pre_list);
        }
        let mut released: Vec<usize> = Vec::new();
        let mut i: usize = 0;
        while self.freelist.size() > 0
            invariant
                self.wf_core(),
                pre_list.len() == len,
                len <= usize::MAX,
                pre_list.no_duplicates(),
                0 <= i <= len,
                forall|t: int|
                    0 <= t < len ==> pre_pool.slabs().contains_key(#[trigger] pre_list[t]),
                self.init_system == pre.init_system,
                self.layout == pre.layout,
                self.slab_system.pool().spec_geometry() == pre_pool.spec_geometry(),
                self.freelist@ == pre_list.skip(i as int),
                self.num_full == len - i,
                self.total_slabs == len - i,
                self.refcnt == 0,
                self.full_slab_working_set.spec_start() == pre.window_start(),
                released@.len() == i,
                forall|t: int|
                    0 <= t < i ==> #[trigger] released@[t]
                        == pre_pool.slabs()[pre_list[t]].spec_base(),
                forall|j: usize| #[trigger]
                    self.slab_system.pool().slabs().contains_key(j)
                        ==> pre_pool.slabs().contains_key(j) && self.slab_system.pool().slabs()[j]
                        == pre_pool.slabs()[j],
                self.slab_system.pool().outstanding() == pre_pool.outstanding(),
            decreases len - i,
        {
            let ghost before_pool = self.slab_system.pool();
            let ghost before_list = self.freelist@;
            proof {
                self.slab_system.lemma_pool_wf();
                before_pool.lemma_wf();
                assert(before_pool.slabs().contains_key(before_list[0]));
                assert(slab_is_full(before_pool, before_list[0]));
                assert(before_pool.slab_ok(before_pool.slabs()[before_list[0]]));
            }
            let slab = self.freelist.remove_front();
            let base = self.slab_system.dealloc_slab(slab);
            released.push(base);
            self.total_slabs = self.total_slabs - 1;
            self.num_full = self.num_full - 1;
            i = i + 1;
            proof {
                let pool = self.slab_system.pool();
                let list = self.freelist@;
                assert(list =~= pre_list.skip(i as int));
                assert(slab == pre_list[i - 1]);
                assert forall|k: int| 0 <= k < list.len() implies pool.slabs().contains_key(
                    #[trigger] list[k],
                ) && pool.slabs()[list[k]].free().len() > 0 by {
                    assert(list[k] == before_list[k + 1]);
                    assert(before_pool.slabs().contains_key(before_list[k + 1]));
                    assert(before_list[k + 1] != before_list[0]);
                }
                assert forall|j: usize| #[trigger]
                    pool.slabs().contains_key(j) && pool.slabs()[j].free().len()
                        > 0 implies list.contains(j) by {
                    assert(before_pool.slabs().contains_key(j));
                    let k = choose|k: int| 0 <= k < before_list.len() && before_list[k] == j;
                    assert(list[k - 1] == j);
                }
                assert forall|k: int| 0 <= k < list.len() implies (slab_is_full(
                    pool,
                    #[trigger] list[k],
                ) <==> k >= list.len() - self.num_full) by {
                    assert(list[k] == before_list[k + 1]);
                    assert(before_pool.slabs().contains_key(before_list[k + 1]));
                    assert(before_list[k + 1] != before_list[0]);
                }
                assert forall|j: usize| #[trigger]
                    pool.slabs().contains_key(j) implies pre_pool.slabs().contains_key(j)
                    && pool.slabs()[j] == pre_pool.slabs()[j] by {
                    assert(before_pool.slabs().contains_key(j));
                }
                assert forall|t: int| 0 <= t < i implies #[trigger] released@[t]
                    == pre_pool.slabs()[pre_list[t]].spec_base() by {
                    if t == i - 1 {
                        assert(before_pool.slabs().contains_key(slab));
                    }
                }
            }
        }
        self.full_slab_working_set.update_min(0);
        proof {
            let pool = self.slab_system.pool();
            assert(self.freelist@ =~= Seq::<usize>::empty());
            self.slab_system.lemma_pool_wf();
            pool.lemma_wf();
            assert forall|j: usize| !pool.slabs().contains_key(j) by {
                if pool.slabs().contains_key(j) {
                    assert(pool.slab_ok(pool.slabs()[j]));
                    pool.slabs()[j].lemma_wf();
                    assert(pool.slabs()[j] == pre_pool.slabs()[j]);
                    pre.lemma_idle_slab_full(j);
                    assert(self.freelist@.contains(j));
                }
            }
            assert(pool.slabs() =~= Map::<usize, Slab>::empty());
        }
        released
    }

    /// In an allocator none of whose slots is handed out, every slot of the
    /// live slab `id` is free.
    pub proof fn lemma_idle_slab_full(&self, id: usize)
        requires
            self.wf(),
            self.spec_refcnt() == 0,
            self.pool().slabs().contains_key(id),
        ensures
            slab_is_full(self.pool(), id),
            self.freelist().contains(id),
    {
        self.lemma_invariants();
        let pool = self.pool();
        pool.lemma_wf();
        let slab = pool.slabs()[id];
        assert(pool.slab_ok(slab));
        slab.lemma_wf();
        assert(pool.outstanding().len() == 0);
        if slab.free().len() < slab.spec_capacity() {
            let i = lemma_distinct_missing(slab.free(), slab.spec_capacity() as nat);
            pool.lemma_taken_slot_outstanding(id, i as int);
        }
    }

    /// In an allocator none of whose slots is handed out, every live slab is
    /// fully free and in the freelist, so the freelist holds `total_slabs`
    /// slabs, all of them counted by `num_full`.
    pub proof fn lemma_idle_all_full(&self)
        requires
            self.wf(),
            self.spec_refcnt() == 0,
        ensures
            self.spec_num_full() == self.freelist().len(),
            self.spec_total_slabs() == self.freelist().len(),
    {
        self.lemma_invariants();
        let list = self.freelist();
        let pool = self.pool();
        pool.lemma_wf();
        if list.len() > 0 {
            self.lemma_idle_slab_full(list[0]);
        }
        assert(list.to_set() =~= pool.slabs().dom()) by {
            assert forall|j: usize| list.to_set().contains(j) <==> pool.slabs().dom().contains(
                j,
            ) by {
                if pool.slabs().contains_key(j) {
                    self.lemma_idle_slab_full(j);
                }
                if list.contains(j) {
                    let k = choose|k: int| 0 <= k < list.len() && list[k] == j;
                    assert(pool.slabs().contains_key(list[k]));
                }
            }
        }
        list.unique_seq_to_set();
    }
}

} // verus!
