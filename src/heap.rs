//! A timer heap whose entries are addressed by stable slot handles.
use vstd::prelude::*;

verus! {

/// A handle for one scheduled event. It stays valid from the push that
/// returned it until the event leaves the heap, and never again afterwards.
#[derive(Clone, Copy, Debug, PartialEq, Eq, Structural)]
pub struct Slot {
    pub index: usize,
    pub generation: u64,
}

/// An event scheduled at a monotonic instant (in nanoseconds) for a key token.
#[derive(Clone, Copy, Debug, PartialEq, Eq, Structural)]
pub struct TimeEvent {
    pub instant: u64,
    pub key: usize,
}


/// `s` designates an event of `m` whose instant is the earliest in `m`.
pub open spec fn earliest(m: Map<Slot, TimeEvent>, s: Slot) -> bool {
    &&& m.contains_key(s)
    &&& forall|t: Slot| #[trigger] m.contains_key(t) ==> m[s].instant <= m[t].instant
}

/// Taking the earliest event `e` out of `m` leaves `n`.
pub open spec fn pops_earliest(m: Map<Slot, TimeEvent>, n: Map<Slot, TimeEvent>, e: TimeEvent) -> bool {
    exists|s: Slot| #[trigger] earliest(m, s) && m[s] == e && n == m.remove(s)
}

#[derive(Clone, Copy)]
struct Entry {
    event: TimeEvent,
    generation: u64,
    /// The handle of the current generation has been handed out.
    issued: bool,
    /// The entry holds a scheduled event.
    live: bool,
    /// Where a live entry stands in the heap order.
    pos: usize,
}

spec fn parent(p: int) -> int {
    (p - 1) / 2
}

/// Every position's instant is no earlier than its parent's.
spec fn ordered(k: Seq<u64>) -> bool {
    forall|p: int| 0 < p < k.len() ==> k[parent(p)] <= #[trigger] k[p]
}

proof fn lemma_root_earliest(k: Seq<u64>, p: int)
    requires
        ordered(k),
        0 <= p < k.len(),
    ensures
        k[0] <= k[p],
    decreases p,
{
    if p > 0 {
        lemma_root_earliest(k, parent(p));
    }
}


/// The loop invariant of sifting down at `k`: order holds everywhere but
/// between `k` and its children, and `k`'s parent is no later than them.
spec fn sift_down_inv(kk: Seq<u64>, k: int) -> bool {
    &&& forall|p: int| 0 < p < kk.len() && parent(p) != k ==> kk[parent(p)] <= #[trigger] kk[p]
    &&& k > 0 ==> forall|c: int| 0 < c < kk.len() && parent(c) == k ==> kk[parent(k)] <= #[trigger] kk[c]
}

proof fn lemma_sift_down_step(kk: Seq<u64>, nk: Seq<u64>, k: int, l: int, m: int)
    requires
        0 <= k < m < kk.len(),
        sift_down_inv(kk, k),
        l == 2 * k + 1,
        m == l || m == l + 1,
        kk[m] <= kk[l],
        l + 1 < kk.len() ==> kk[m] <= kk[l + 1],
        kk[m] < kk[k],
        nk == kk.update(k, kk[m]).update(m, kk[k]),
    ensures
        sift_down_inv(nk, m),
{
    assert(parent(l) == k);
    assert(parent(l + 1) == k);
    assert forall|p: int| 0 < p < nk.len() && parent(p) != m implies nk[parent(p)] <= #[trigger] nk[p] by {
        if p == m {
        } else if parent(p) == k {
            assert(p == l || p == l + 1);
        } else if p == k {
            assert(kk[parent(k)] <= kk[m]);
        } else {
            assert(kk[parent(p)] <= kk[p]);
        }
    }
    assert forall|c: int| 0 < c < nk.len() && parent(c) == m implies nk[parent(m)] <= #[trigger] nk[c] by {
        assert(kk[parent(c)] <= kk[c]);
    }
}

proof fn lemma_sift_down_done(kk: Seq<u64>, k: int)
    requires
        0 <= k < kk.len(),
        sift_down_inv(kk, k),
        forall|c: int| 0 < c < kk.len() && parent(c) == k ==> kk[k] <= #[trigger] kk[c],
    ensures
        ordered(kk),
{
    assert forall|p: int| 0 < p < kk.len() implies kk[parent(p)] <= #[trigger] kk[p] by {
        if parent(p) == k {
            assert(kk[k] <= kk[p]);
        }
    }
}

/// The scheduled events, each reachable through its slot. Events sit in an
/// arena indexed by slot; `order` is a binary min-heap of arena indices, and
/// each live entry records its position in it.
pub struct Heap {
    entries: Vec<Entry>,
    free: Vec<usize>,
    order: Vec<usize>,
}

impl Heap {
    closed spec fn arena_wf(&self) -> bool {
        &&& forall|i: int| 0 <= i < self.entries@.len() ==> #[trigger] self.entries@[i].live
            ==> self.entries@[i].issued
        &&& forall|j: int|
            0 <= j < self.free@.len() ==> {
                let i = #[trigger] self.free@[j];
                &&& i < self.entries@.len()
                &&& !self.entries@[i as int].issued
            }
        &&& forall|j: int, k: int|
            0 <= j < self.free@.len() && 0 <= k < self.free@.len() && j != k ==> self.free@[j]
                != self.free@[k]
    }

    closed spec fn linked(&self) -> bool {
        &&& forall|p: int|
            0 <= p < self.order@.len() ==> {
                let i = #[trigger] self.order@[p];
                &&& i < self.entries@.len()
                &&& self.entries@[i as int].live
                &&& self.entries@[i as int].pos == p
            }
        &&& forall|i: int|
            0 <= i < self.entries@.len() && #[trigger] self.entries@[i].live ==> {
                &&& self.entries@[i].pos < self.order@.len()
                &&& self.order@[self.entries@[i].pos as int] == i
            }
    }

    closed spec fn keys(&self) -> Seq<u64> {
        Seq::new(self.order@.len(), |p: int| self.entries@[self.order@[p] as int].event.instant)
    }

    pub closed spec fn wf(&self) -> bool {
        &&& self.arena_wf()
        &&& self.linked()
        &&& ordered(self.keys())
    }

    /// The two heaps hold the same arena but for positions.
    closed spec fn same_arena(&self, o: Heap) -> bool {
        &&& self.free@ == o.free@
        &&& self.entries@.len() == o.entries@.len()
        &&& forall|i: int|
            0 <= i < self.entries@.len() ==> {
                let a = #[trigger] self.entries@[i];
                let b = o.entries@[i];
                a.event == b.event && a.generation == b.generation && a.issued == b.issued
                    && a.live == b.live
            }
    }

    proof fn lemma_same_arena(&self, o: Heap)
        requires
            self.same_arena(o),
        ensures
            self@ == o@,
            forall|s: Slot| self.issued(s) == o.issued(s),
            self.arena_wf() == o.arena_wf(),
    {
        assert(self@ =~= o@);
        assert forall|s: Slot| self.issued(s) == o.issued(s) by {
            if s.index < self.entries@.len() {
                assert(self.entries@[s.index as int].generation == o.entries@[s.index as int].generation);
            }
        }
        if o.arena_wf() {
            assert forall|i: int| 0 <= i < self.entries@.len() && #[trigger] self.entries@[i].live
                implies self.entries@[i].issued by {
                assert(o.entries@[i].live ==> o.entries@[i].issued);
            }
        }
        if self.arena_wf() {
            assert forall|i: int| 0 <= i < o.entries@.len() && #[trigger] o.entries@[i].live
                implies o.entries@[i].issued by {
                assert(self.entries@[i].live ==> self.entries@[i].issued);
            }
        }
    }

    /// The scheduled events, by the slot that designates each.
    pub closed spec fn view(&self) -> Map<Slot, TimeEvent> {
        Map::new(
            |s: Slot| self.live_slot(s),
            |s: Slot| self.entries@[s.index as int].event,
        )
    }

    closed spec fn live_slot(&self, s: Slot) -> bool {
        &&& s.index < self.entries@.len()
        &&& self.entries@[s.index as int].live
        &&& self.entries@[s.index as int].generation == s.generation
    }

    /// The slot has been handed out by some push on this heap.
    pub closed spec fn issued(&self, s: Slot) -> bool {
        &&& s.index < self.entries@.len()
        &&& {
            let e = self.entries@[s.index as int];
            s.generation < e.generation || (s.generation == e.generation && e.issued)
        }
    }

    /// The slot was handed out and its event has since left the heap.
    pub open spec fn spent(&self, s: Slot) -> bool {
        self.issued(s) && !self@.contains_key(s)
    }

    /// Every slot that designates a scheduled event was handed out by a push.
    pub proof fn lemma_live_issued(&self)
        requires
            self.wf(),
        ensures
            forall|s: Slot| #[trigger] self@.contains_key(s) ==> self.issued(s),
    {
        assert forall|s: Slot| #[trigger] self@.contains_key(s) implies self.issued(s) by {
            assert(self.live_slot(s));
            assert(self.entries@[s.index as int].live);
        }
    }

    /// An empty heap.
    pub fn new() -> (r: Heap)
        ensures
            r.wf(),
            r@ == Map::<Slot, TimeEvent>::empty(),
            forall|s: Slot| !r.issued(s),
    {
        let r = Heap { entries: Vec::new(), free: Vec::new(), order: Vec::new() };
        assert(r@ =~= Map::<Slot, TimeEvent>::empty());
        r
    }

    fn key(&self, p: usize) -> (r: u64)
        requires
            self.linked(),
            p < self.order@.len(),
        ensures
            r == self.keys()[p as int],
    {
        self.entries[self.order[p]].event.instant
    }

    /// Exchanges the entries at heap positions `a` and `b`.
    fn swap(&mut self, a: usize, b: usize)
        requires
            old(self).linked(),
            a < old(self).order@.len(),
            b < old(self).order@.len(),
        ensures
            final(self).linked(),
            final(self).same_arena(*old(self)),
            final(self).order@ == old(self).order@.update(a as int, old(self).order@[b as int]).update(
                b as int,
                old(self).order@[a as int],
            ),
            final(self).keys() == old(self).keys().update(a as int, old(self).keys()[b as int]).update(
                b as int,
                old(self).keys()[a as int],
            ),
    {
        let ghost pre = *self;
        let ia = self.order[a];
        let ib = self.order[b];
        self.order.set(a, ib);
        self.order.set(b, ia);
        let mut ea = self.entries[ia];
        ea.pos = b;
        self.entries.set(ia, ea);
        let mut eb = self.entries[ib];
        eb.pos = a;
        self.entries.set(ib, eb);
        proof {
            assert forall|p: int| 0 <= p < self.order@.len() implies {
                let i = #[trigger] self.order@[p];
                &&& i < self.entries@.len()
                &&& self.entries@[i as int].live
                &&& self.entries@[i as int].pos == p
            } by {
                let i = pre.order@[p];
                assert(pre.entries@[i as int].pos == p);
            }
            assert forall|i: int| 0 <= i < self.entries@.len() && #[trigger] self.entries@[i].live implies {
                &&& self.entries@[i].pos < self.order@.len()
                &&& self.order@[self.entries@[i].pos as int] == i
            } by {
                assert(pre.entries@[i].live);
                let q = pre.entries@[i].pos;
                assert(pre.order@[q as int] == i);
            }
            assert(self.keys() =~= pre.keys().update(a as int, pre.keys()[b as int]).update(
                b as int,
                pre.keys()[a as int],
            ));
        }
    }

    /// Restores heap order where only position `k` may be earlier than its
    /// parent.
    fn sift_up(&mut self, k: usize)
        requires
            old(self).linked(),
            k < old(self).order@.len(),
            forall|p: int|
                0 < p < old(self).keys().len() && p != k ==> old(self).keys()[parent(p)]
                    <= #[trigger] old(self).keys()[p],
            k > 0 ==> forall|c: int|
                0 < c < old(self).keys().len() && parent(c) == k ==> old(self).keys()[parent(
                    k as int,
                )] <= #[trigger] old(self).keys()[c],
        ensures
            final(self).linked(),
            ordered(final(self).keys()),
            final(self).same_arena(*old(self)),
            final(self).order@.len() == old(self).order@.len(),
    {
        let ghost pre = *self;
        let mut k = k;
        while k > 0 && self.key(k) < self.key((k - 1) / 2)
            invariant
                self.linked(),
                k < self.order@.len(),
                self.same_arena(pre),
                self.order@.len() == pre.order@.len(),
                forall|p: int|
                    0 < p < self.keys().len() && p != k ==> self.keys()[parent(p)]
                        <= #[trigger] self.keys()[p],
                k > 0 ==> forall|c: int|
                    0 < c < self.keys().len() && parent(c) == k ==> self.keys()[parent(k as int)]
                        <= #[trigger] self.keys()[c],
            decreases k,
        {
            let q = (k - 1) / 2;
            let ghost kk = self.keys();
            self.swap(k, q);
            proof {
                let nk = self.keys();
                assert(nk[q as int] == kk[k as int]);
                assert(nk[k as int] == kk[q as int]);
                assert forall|p: int| 0 < p < nk.len() && p != q implies nk[parent(p)]
                    <= #[trigger] nk[p] by {
                    if p == k {
                    } else if parent(p) == k {
                        assert(kk[parent(k as int)] <= kk[p]);
                    } else if parent(p) == q {
                        assert(kk[parent(p)] <= kk[p]);
                    } else {
                        assert(kk[parent(p)] <= kk[p]);
                    }
                }
                if q > 0 {
                    assert(kk[parent(q as int)] <= kk[q as int]);
                    assert forall|c: int| 0 < c < nk.len() && parent(c) == q implies nk[parent(
                        q as int,
                    )] <= #[trigger] nk[c] by {
                        if c != k {
                            assert(kk[parent(c)] <= kk[c]);
                        }
                    }
                }
            }
            k = q;
        }
    }

    /// Restores heap order where only position `k` may be later than its
    /// children.
    fn sift_down(&mut self, k: usize)
        requires
            old(self).linked(),
            k < old(self).order@.len(),
            sift_down_inv(old(self).keys(), k as int),
        ensures
            final(self).linked(),
            ordered(final(self).keys()),
            final(self).same_arena(*old(self)),
            final(self).order@.len() == old(self).order@.len(),
    {
        let ghost pre = *self;
        let len = self.order.len();
        let mut k = k;
        let mut stop = false;
        while !stop
            invariant
                self.linked(),
                len == self.order@.len(),
                k < len,
                self.same_arena(pre),
                self.order@.len() == pre.order@.len(),
                stop ==> ordered(self.keys()),
                sift_down_inv(self.keys(), k as int),
            decreases len - k + (if stop { 0int } else { 1int }),
        {
            if k >= len / 2 {
                stop = true;
                proof {
                    let nk = self.keys();
                    assert forall|c: int| 0 < c < nk.len() && parent(c) == k implies nk[k as int]
                        <= #[trigger] nk[c] by {
                        assert(c >= 2 * k + 1);
                    }
                    lemma_sift_down_done(nk, k as int);
                }
            } else {
                let l = 2 * k + 1;
                let mut m = l;
                if l + 1 < len && self.key(l + 1) < self.key(l) {
                    m = l + 1;
                }
                if self.key(m) < self.key(k) {
                    let ghost kk = self.keys();
                    proof {
                        assert(parent(l as int) == k);
                        assert(l + 1 < len ==> parent(l + 1) == k);
                        assert(kk[m as int] <= kk[l as int]);
                        assert(l + 1 < len ==> kk[m as int] <= kk[l + 1]);
                    }
                    self.swap(k, m);
                    proof {
                        lemma_sift_down_step(kk, self.keys(), k as int, l as int, m as int);
                    }
                    k = m;
                } else {
                    stop = true;
                    proof {
                        let nk = self.keys();
                        assert forall|c: int| 0 < c < nk.len() && parent(c) == k implies nk[k as int]
                            <= #[trigger] nk[c] by {
                            assert(c == l || c == l + 1);
                        }
                        lemma_sift_down_done(nk, k as int);
                    }
                }
            }
        }
    }

    proof fn lemma_root_earliest(&self)
        requires
            self.wf(),
            self.order@.len() > 0,
        ensures
            ({
                let i = self.order@[0];
                let s = Slot { index: i, generation: self.entries@[i as int].generation };
                earliest(self@, s) && self@[s] == self.entries@[i as int].event
            }),
    {
        let i = self.order@[0];
        let s = Slot { index: i, generation: self.entries@[i as int].generation };
        assert(self.live_slot(s));
        assert forall|t: Slot| #[trigger] self@.contains_key(t) implies self@[s].instant
            <= self@[t].instant by {
            assert(self.live_slot(t));
            let q = self.entries@[t.index as int].pos;
            assert(self.order@[q as int] == t.index);
            assert(self.keys()[q as int] == self@[t].instant);
            lemma_root_earliest(self.keys(), q as int);
        }
    }

    proof fn lemma_empty(&self)
        requires
            self.wf(),
            self.order@.len() == 0,
        ensures
            forall|s: Slot| !self@.contains_key(s),
    {
        assert forall|s: Slot| !self@.contains_key(s) by {
            if self.live_slot(s) {
                assert(self.entries@[s.index as int].live);
            }
        }
    }

    /// Schedules `event` and returns a slot that no earlier push handed out.
    pub fn push(&mut self, event: TimeEvent) -> (r: Slot)
        requires
            old(self).wf(),
        ensures
            final(self).wf(),
            !old(self).issued(r),
            !old(self)@.contains_key(r),
            final(self).issued(r),
            final(self)@ == old(self)@.insert(r, event),
            forall|s: Slot| old(self).issued(s) ==> #[trigger] final(self).issued(s),
            forall|s: Slot| old(self).spent(s) ==> #[trigger] final(self).spent(s),
    {
        let ghost pre = *self;
        let pos = self.order.len();
        let i: usize;
        let generation: u64;
        if self.free.len() > 0 {
            i = self.free.pop().unwrap();
            proof {
                assert(pre.free@[pre.free@.len() - 1] == i);
                assert forall|j: int| 0 <= j < self.free@.len() implies self.free@[j] != i by {
                    assert(self.free@[j] == pre.free@[j]);
                }
            }
            generation = self.entries[i].generation;
            self.entries.set(i, Entry { event, generation, issued: true, live: true, pos });
        } else {
            i = self.entries.len();
            generation = 0;
            self.entries.push(Entry { event, generation, issued: true, live: true, pos });
        }
        self.order.push(i);
        let r = Slot { index: i, generation };
        proof {
            assert(!pre.entries@[i as int].live || i == pre.entries@.len());
            assert forall|j: int| 0 <= j < self.free@.len() implies {
                let k = #[trigger] self.free@[j];
                &&& k < self.entries@.len()
                &&& !self.entries@[k as int].issued
            } by {
                assert(self.free@[j] == pre.free@[j]);
            }
            assert forall|q: int| 0 <= q < self.order@.len() implies {
                let k = #[trigger] self.order@[q];
                &&& k < self.entries@.len()
                &&& self.entries@[k as int].live
                &&& self.entries@[k as int].pos == q
            } by {
                if q < pos {
                    assert(self.order@[q] == pre.order@[q]);
                    let k = pre.order@[q];
                    assert(pre.entries@[k as int].live);
                }
            }
            assert forall|k: int| 0 <= k < self.entries@.len() && #[trigger] self.entries@[k].live implies {
                &&& self.entries@[k].pos < self.order@.len()
                &&& self.order@[self.entries@[k].pos as int] == k
            } by {
                if k != i {
                    assert(self.entries@[k] == pre.entries@[k]);
                    assert(pre.entries@[k].live);
                }
            }
            assert forall|s: Slot| pre.issued(s) implies #[trigger] self.issued(s) by {
                if s.index != i {
                    assert(self.entries@[s.index as int] == pre.entries@[s.index as int]);
                }
            }
            assert(self@ =~= pre@.insert(r, event));
            assert forall|q: int| 0 < q < self.keys().len() && q != pos implies self.keys()[parent(q)]
                <= #[trigger] self.keys()[q] by {
                assert(self.keys()[q] == pre.keys()[q]);
                assert(self.keys()[parent(q)] == pre.keys()[parent(q)]);
            }
        }
        let ghost mid = *self;
        self.sift_up(pos);
        proof {
            self.lemma_same_arena(mid);
        }
        r
    }

    /// Takes out the event at heap position `p` and retires its slot.
    fn take(&mut self, p: usize) -> (r: TimeEvent)
        requires
            old(self).wf(),
            p < old(self).order@.len(),
        ensures
            final(self).wf(),
            ({
                let i = old(self).order@[p as int];
                let s = Slot { index: i, generation: old(self).entries@[i as int].generation };
                &&& old(self)@.contains_key(s)
                &&& old(self).issued(s)
                &&& r == old(self)@[s]
                &&& final(self)@ == old(self)@.remove(s)
            }),
            forall|s: Slot| old(self).issued(s) ==> #[trigger] final(self).issued(s),
    {
        let ghost pre = *self;
        let ghost kk = pre.keys();
        let ghost slot = Slot { index: pre.order@[p as int], generation: pre.entries@[pre.order@[p as int] as int].generation };
        let last = self.order.len() - 1;
        self.swap(p, last);
        let ghost mid = *self;
        let i = self.order.pop().unwrap();
        assert(i == pre.order@[p as int]);
        let event = self.entries[i].event;
        let generation = self.entries[i].generation;
        proof {
            assert(mid.entries@[i as int].live);
            assert forall|j: int| 0 <= j < pre.free@.len() implies pre.free@[j] != i by {
                assert(mid.free@[j] == pre.free@[j]);
                assert(!mid.entries@[mid.free@[j] as int].issued);
            }
        }
        if generation < u64::MAX {
            self.entries.set(i, Entry { event, generation: generation + 1, issued: false, live: false, pos: 0 });
            self.free.push(i);
            proof {
                assert forall|j: int| 0 <= j < self.free@.len() implies {
                    let k = #[trigger] self.free@[j];
                    &&& k < self.entries@.len()
                    &&& !self.entries@[k as int].issued
                } by {
                    if j < mid.free@.len() {
                        assert(self.free@[j] == mid.free@[j]);
                    }
                }
                assert forall|j: int, k: int|
                    0 <= j < self.free@.len() && 0 <= k < self.free@.len() && j != k
                    implies self.free@[j] != self.free@[k] by {
                    if j < mid.free@.len() {
                        assert(self.free@[j] == mid.free@[j]);
                    }
                    if k < mid.free@.len() {
                        assert(self.free@[k] == mid.free@[k]);
                    }
                }
            }
        } else {
            self.entries.set(i, Entry { event, generation, issued: true, live: false, pos: 0 });
            proof {
                assert forall|j: int| 0 <= j < self.free@.len() implies {
                    let k = #[trigger] self.free@[j];
                    &&& k < self.entries@.len()
                    &&& !self.entries@[k as int].issued
                } by {
                    assert(self.free@[j] == mid.free@[j]);
                }
            }
        }
        proof {
            pre.lemma_same_arena(mid);
            assert forall|k: int| 0 <= k < self.entries@.len() && #[trigger] self.entries@[k].live
                implies self.entries@[k].issued by {
                if k != i {
                    assert(self.entries@[k] == mid.entries@[k]);
                    assert(mid.entries@[k].live ==> mid.entries@[k].issued);
                }
            }
            assert forall|q: int| 0 <= q < self.order@.len() implies {
                let k = #[trigger] self.order@[q];
                &&& k < self.entries@.len()
                &&& self.entries@[k as int].live
                &&& self.entries@[k as int].pos == q
            } by {
                let k = mid.order@[q];
                assert(self.order@[q] == k);
                assert(mid.entries@[k as int].pos == q);
                assert(k != i);
                assert(self.entries@[k as int] == mid.entries@[k as int]);
            }
            assert forall|k: int| 0 <= k < self.entries@.len() && #[trigger] self.entries@[k].live implies {
                &&& self.entries@[k].pos < self.order@.len()
                &&& self.order@[self.entries@[k].pos as int] == k
            } by {
                assert(k != i);
                assert(self.entries@[k] == mid.entries@[k]);
                assert(mid.entries@[k].live);
                assert(mid.order@[mid.entries@[k].pos as int] == k);
            }
            assert forall|s: Slot| pre.issued(s) implies #[trigger] self.issued(s) by {
                assert(mid.issued(s));
                if s.index != i {
                    assert(self.entries@[s.index as int] == mid.entries@[s.index as int]);
                }
            }
            assert(pre.live_slot(slot));
            assert(self@ =~= pre@.remove(slot)) by {
                assert forall|s: Slot| #[trigger] self.live_slot(s) == (pre.live_slot(s) && s != slot) by {
                    if s.index != i && s.index < self.entries@.len() {
                        assert(self.entries@[s.index as int] == mid.entries@[s.index as int]);
                    }
                }
                assert forall|s: Slot| #[trigger] self.live_slot(s) implies self@[s] == pre@[s] by {
                    assert(self.entries@[s.index as int] == mid.entries@[s.index as int]);
                }
            }
            let nk = self.keys();
            assert(nk.len() == last);
            assert forall|q: int| 0 <= q < last implies #[trigger] nk[q] == (if q == p { kk[last as int] } else { kk[q] }) by {
                assert(self.entries@[self.order@[q] as int] == mid.entries@[mid.order@[q] as int]);
                assert(nk[q] == mid.keys()[q]);
            }
        }
        if p < self.order.len() {
            let ghost nk = self.keys();
            if p > 0 && self.key(p) < self.key((p - 1) / 2) {
                proof {
                    assert forall|q: int| 0 < q < nk.len() && q != p implies nk[parent(q)]
                        <= #[trigger] nk[q] by {
                        assert(kk[parent(q)] <= kk[q]);
                        if parent(q) == p {
                            assert(kk[parent(p as int)] <= kk[p as int]);
                        }
                    }
                    assert forall|c: int| 0 < c < nk.len() && parent(c) == p implies nk[parent(p as int)]
                        <= #[trigger] nk[c] by {
                        assert(kk[parent(c)] <= kk[c]);
                        assert(kk[parent(p as int)] <= kk[p as int]);
                    }
                }
                let ghost before = *self;
                self.sift_up(p);
                proof {
                    self.lemma_same_arena(before);
                }
            } else {
                proof {
                    assert forall|q: int| 0 < q < nk.len() && parent(q) != p implies nk[parent(q)]
                        <= #[trigger] nk[q] by {
                        if q != p {
                            assert(kk[parent(q)] <= kk[q]);
                        }
                    }
                    if p > 0 {
                        assert forall|c: int| 0 < c < nk.len() && parent(c) == p implies nk[parent(p as int)]
                            <= #[trigger] nk[c] by {
                            assert(kk[parent(c)] <= kk[c]);
                            assert(kk[parent(p as int)] <= kk[p as int]);
                        }
                    }
                }
                let ghost before = *self;
                self.sift_down(p);
                proof {
                    self.lemma_same_arena(before);
                }
            }
        } else {
            proof {
                let nk = self.keys();
                assert forall|q: int| 0 < q < nk.len() implies nk[parent(q)] <= #[trigger] nk[q] by {
                    assert(kk[parent(q)] <= kk[q]);
                }
            }
        }
        event
    }

    /// Removes the event that `slot` designates. A slot whose event has
    /// already left the heap, or that this heap never handed out, is refused
    /// and leaves the heap as it was.
    pub fn remove(&mut self, slot: Slot) -> (r: Option<TimeEvent>)
        requires
            old(self).wf(),
        ensures
            final(self).wf(),
            old(self)@.contains_key(slot) ==> r == Some(old(self)@[slot]) && final(self)@
                == old(self)@.remove(slot),
            !old(self)@.contains_key(slot) ==> r is None && final(self)@ == old(self)@,
            old(self)@.contains_key(slot) ==> final(self).spent(slot),
            forall|s: Slot| old(self).issued(s) ==> #[trigger] final(self).issued(s),
            forall|s: Slot| old(self).spent(s) ==> #[trigger] final(self).spent(s),
    {
        if slot.index < self.entries.len() && self.entries[slot.index].live
            && self.entries[slot.index].generation == slot.generation {
            let p = self.entries[slot.index].pos;
            Some(self.take(p))
        } else {
            proof {
                assert(!self.live_slot(slot));
            }
            None
        }
    }

    /// The earliest scheduled event, if any.
    pub fn peek(&self) -> (r: Option<TimeEvent>)
        requires
            self.wf(),
        ensures
            r is None <==> forall|s: Slot| !self@.contains_key(s),
            r matches Some(e) ==> exists|s: Slot| #[trigger] earliest(self@, s) && self@[s] == e,
    {
        if self.order.len() == 0 {
            proof {
                self.lemma_empty();
            }
            None
        } else {
            proof {
                self.lemma_root_earliest();
            }
            Some(self.entries[self.order[0]].event)
        }
    }

    /// Takes out and returns the earliest scheduled event, if any.
    pub fn pop(&mut self) -> (r: Option<TimeEvent>)
        requires
            old(self).wf(),
        ensures
            final(self).wf(),
            r is None <==> forall|s: Slot| !old(self)@.contains_key(s),
            r is None ==> final(self)@ == old(self)@,
            r matches Some(e) ==> pops_earliest(old(self)@, final(self)@, e),
            forall|s: Slot| old(self).issued(s) ==> #[trigger] final(self).issued(s),
            forall|s: Slot| old(self).spent(s) ==> #[trigger] final(self).spent(s),
    {
        if self.order.len() == 0 {
            proof {
                self.lemma_empty();
            }
            None
        } else {
            proof {
                self.lemma_root_earliest();
            }
            Some(self.take(0))
        }
    }

    /// Takes out and returns the earliest scheduled event if its instant is
    /// at or before `now`; otherwise leaves the heap as it was.
    pub fn pop_due(&mut self, now: u64) -> (r: Option<TimeEvent>)
        requires
            old(self).wf(),
        ensures
            final(self).wf(),
            r is None <==> forall|s: Slot| #[trigger] old(self)@.contains_key(s) ==> old(self)@[s].instant > now,
            r is None ==> final(self)@ == old(self)@,
            r matches Some(e) ==> e.instant <= now && pops_earliest(old(self)@, final(self)@, e),
            forall|s: Slot| old(self).issued(s) ==> #[trigger] final(self).issued(s),
            forall|s: Slot| old(self).spent(s) ==> #[trigger] final(self).spent(s),
    {
        if self.order.len() == 0 {
            proof {
                self.lemma_empty();
            }
            None
        } else {
            proof {
                self.lemma_root_earliest();
            }
            if self.key(0) <= now {
                Some(self.take(0))
            } else {
                None
            }
        }
    }
}

/// Events taken out one after the other by earliest-first pops come out in
/// non-decreasing order of their instants.
pub proof fn lemma_pops_in_order(
    m0: Map<Slot, TimeEvent>,
    m1: Map<Slot, TimeEvent>,
    m2: Map<Slot, TimeEvent>,
    e1: TimeEvent,
    e2: TimeEvent,
)
    requires
        pops_earliest(m0, m1, e1),
        pops_earliest(m1, m2, e2),
    ensures
        e1.instant <= e2.instant,
{
    let s1 = choose|s: Slot| #[trigger] earliest(m0, s) && m0[s] == e1 && m1 == m0.remove(s);
    let s2 = choose|s: Slot| #[trigger] earliest(m1, s) && m1[s] == e2 && m2 == m1.remove(s);
    assert(m0.contains_key(s2));
}

/// A run of earliest-first pops, with no push in between, hands out its
/// events in non-decreasing order of their instants: `states[i]` is the heap
/// before the `i`-th pop and `out[i]` the event that it returned.
pub proof fn lemma_pop_run_sorted(states: Seq<Map<Slot, TimeEvent>>, out: Seq<TimeEvent>)
    requires
        states.len() == out.len() + 1,
        forall|i: int| 0 <= i < out.len() ==> pops_earliest(states[i], states[i + 1], #[trigger] out[i]),
    ensures
        forall|i: int, j: int| 0 <= i <= j < out.len() ==> (#[trigger] out[i]).instant <= (#[trigger] out[j]).instant,
    decreases out.len(),
{
    if out.len() > 0 {
        let n = out.len() - 1;
        lemma_pop_run_sorted(states.take(n + 1), out.take(n));
        if n > 0 {
            assert(pops_earliest(states[n - 1], states[n], out[n - 1]));
            assert(pops_earliest(states[n], states[n + 1], out[n]));
            lemma_pops_in_order(states[n - 1], states[n], states[n + 1], out[n - 1], out[n]);
        }
        assert forall|i: int, j: int| 0 <= i <= j < out.len() implies (#[trigger] out[i]).instant
            <= (#[trigger] out[j]).instant by {
            if j < n {
                assert(out.take(n)[i] == out[i]);
                assert(out.take(n)[j] == out[j]);
            } else if i < n {
                assert(out.take(n)[i] == out[i]);
                assert(out.take(n)[n - 1] == out[n - 1]);
            }
        }
    }
}

/// One change of the scheduled events during a wait: an event leaves (popped
/// or removed), or one is pushed under a slot that designated none of the
/// events `initial` held. A push on a heap gives such a slot, as no slot of
/// `initial` is unissued.
pub open spec fn wait_step(
    initial: Map<Slot, TimeEvent>,
    m: Map<Slot, TimeEvent>,
    n: Map<Slot, TimeEvent>,
) -> bool {
    ||| exists|s: Slot| n == #[trigger] m.remove(s)
    ||| exists|r: Slot, e: TimeEvent|
        !initial.contains_key(r) && !m.contains_key(r) && n == #[trigger] m.insert(r, e)
}

proof fn lemma_kept(states: Seq<Map<Slot, TimeEvent>>, s: Slot, m: int)
    requires
        forall|k: int| 0 <= k < states.len() - 1 ==> wait_step(states[0], #[trigger] states[k], states[k + 1]),
        0 <= m < states.len(),
        states[0].contains_key(s),
        states[m].contains_key(s),
    ensures
        forall|k: int| 0 <= k <= m ==> (#[trigger] states[k]).contains_key(s) && states[k][s] == states[0][s],
    decreases m,
{
    if m > 0 {
        assert(wait_step(states[0], states[m - 1], states[m]));
        if exists|t: Slot| states[m] == #[trigger] states[m - 1].remove(t) {
            let t = choose|t: Slot| states[m] == #[trigger] states[m - 1].remove(t);
            assert(states[m - 1].contains_key(s));
        } else {
            let (r, e) = choose|r: Slot, e: TimeEvent|
                !states[0].contains_key(r) && !states[m - 1].contains_key(r) && states[m]
                    == #[trigger] states[m - 1].insert(r, e);
            assert(r != s);
            assert(states[m - 1].contains_key(s));
        }
        lemma_kept(states, s, m - 1);
    }
}

/// Within one wait the handler sees the deadlines scheduled before the wait
/// in non-decreasing order of their instants, whatever is pushed or removed
/// meanwhile: `states` are the scheduled events after each change, and the
/// changes at `i` and then `j` pop the earliest events `si` and `sj`.
pub proof fn lemma_wait_order(
    states: Seq<Map<Slot, TimeEvent>>,
    i: int,
    j: int,
    si: Slot,
    sj: Slot,
)
    requires
        forall|k: int| 0 <= k < states.len() - 1 ==> wait_step(states[0], #[trigger] states[k], states[k + 1]),
        0 <= i < j < states.len() - 1,
        states[0].contains_key(si),
        states[0].contains_key(sj),
        earliest(states[i], si),
        states[i + 1] == states[i].remove(si),
        earliest(states[j], sj),
        states[j + 1] == states[j].remove(sj),
    ensures
        states[0][si].instant <= states[0][sj].instant,
{
    lemma_kept(states, sj, j);
    lemma_kept(states, si, i);
    assert(states[i].contains_key(sj));
}

/// A push made during the wait is a `wait_step` from the heap as it stood
/// when the wait began.
pub proof fn lemma_push_is_wait_step(h0: Heap, h: Heap, h1: Heap, r: Slot, e: TimeEvent)
    requires
        h0.wf(),
        h.wf(),
        forall|s: Slot| h0.issued(s) ==> #[trigger] h.issued(s),
        !h.issued(r),
        h1@ == h@.insert(r, e),
    ensures
        wait_step(h0@, h@, h1@),
{
    h0.lemma_live_issued();
    h.lemma_live_issued();
    if h0@.contains_key(r) {
        assert(h0.issued(r));
    }
    assert(!h0@.contains_key(r) && !h@.contains_key(r) && h1@ == h@.insert(r, e));
}

/// A slot is accepted by exactly one removal: once its event has been
/// removed (or popped), a later removal through the same slot is refused,
/// whatever pushes came in between.
pub proof fn lemma_slot_accepted_once(h0: Heap, h1: Heap, s: Slot)
    requires
        h0.wf(),
        h1.wf(),
        h0.spent(s),
        forall|t: Slot| h0.spent(t) ==> #[trigger] h1.spent(t),
    ensures
        !h1@.contains_key(s),
{
    assert(h1.spent(s));
}

} // verus!
