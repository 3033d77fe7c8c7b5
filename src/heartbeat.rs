//! The heartbeat manager: a single owner of the activity index, driven by
//! touch, remove and tick events.

use vstd::prelude::*;
use crate::connid::{ShortConnectionId, key_of, lemma_key_injective};
use crate::linked_list::{
    lemma_relocated,
    LinkedList,
    NodePtr,
    deref_node,
    lemma_index_of_unique,
    lemma_order_distinct,
};
use std::collections::HashMap;

verus! {

broadcast use vstd::std_specs::hash::group_hash_axioms;

/// The most connections that one tick hands out.
pub const TICK_LIMIT: usize = 1000;

/// A connection in the activity index, with the stamp of its last touch.
#[derive(Clone, Copy, Debug)]
pub struct HeartbeatNode {
    pub idx: u64,
    pub short: ShortConnectionId,
}

impl HeartbeatNode {
    pub fn new(idx: u64, short: ShortConnectionId) -> (r: HeartbeatNode)
        ensures
            r.idx == idx,
            r.short == short,
    {
        HeartbeatNode { idx, short }
    }
}

/// The activity index and the stamps: connections from least to most
/// recently touched.
pub struct HeartbeatManager {
    list: LinkedList<HeartbeatNode>,
    index: HashMap<u128, NodePtr>,
    counter: u64,
    boundary: u64,
    pending: usize,
}

impl HeartbeatManager {
    /// The connections and their stamps, least recently touched first.
    pub closed spec fn spec_entries(&self) -> Seq<(ShortConnectionId, u64)> {
        self.list.spec_order().map_values(
            |p: NodePtr| (self.list.spec_value(p).short, self.list.spec_value(p).idx),
        )
    }

    /// The stamp that the last touch gave.
    pub closed spec fn spec_counter(&self) -> u64 {
        self.counter
    }

    /// The stamp at the last tick: only connections stamped at or before it
    /// are due.
    pub closed spec fn spec_boundary(&self) -> u64 {
        self.boundary
    }

    /// How many connections the ticks have handed out.
    pub closed spec fn spec_pending(&self) -> usize {
        self.pending
    }

    /// The index maps each connection's key to its node, the stamps grow
    /// from front to back, and none is past the counter.
    pub closed spec fn wf(&self) -> bool {
        let o = self.list.spec_order();
        let e = self.spec_entries();
        &&& self.list.wf()
        &&& forall|k: u128| #[trigger]
            self.index@.contains_key(k) ==> self.list.spec_contains(self.index@[k]) && key_of(
                self.list.spec_value(self.index@[k]).short@,
            ) == k
        &&& forall|p: NodePtr| #[trigger]
            self.list.spec_contains(p) ==> self.index@.contains_key(
                key_of(self.list.spec_value(p).short@),
            ) && self.index@[key_of(self.list.spec_value(p).short@)] == p
        &&& forall|i: int, j: int| 0 <= i < j < e.len() ==> (#[trigger] e[i]).1 < (#[trigger] e[j]).1
        &&& forall|i: int| 0 <= i < e.len() ==> (#[trigger] e[i]).1 <= self.counter
        &&& self.boundary <= self.counter
    }

    /// An empty index.
    pub fn new() -> (r: HeartbeatManager)
        ensures
            r.wf(),
            r.spec_entries() == Seq::<(ShortConnectionId, u64)>::empty(),
            r.spec_counter() == 0,
            r.spec_boundary() == 0,
            r.spec_pending() == 0,
    {
        let r = HeartbeatManager {
            list: LinkedList::new(),
            index: HashMap::new(),
            counter: 0,
            boundary: 0,
            pending: 0,
        };
        assert(r.spec_entries() =~= Seq::<(ShortConnectionId, u64)>::empty());
        r
    }

    /// The number of connections in the index.
    pub fn len(&self) -> (r: usize)
        requires
            self.wf(),
        ensures
            r == self.spec_entries().len(),
    {
        self.list.len()
    }

    /// The stamp that the last touch gave.
    pub fn counter(&self) -> (r: u64)
        ensures
            r == self.spec_counter(),
    {
        self.counter
    }

    /// How many connections the ticks have handed out.
    pub fn pending(&self) -> (r: usize)
        ensures
            r == self.spec_pending(),
    {
        self.pending
    }
}

impl HeartbeatManager {
    /// No connection stands twice in the index.
    pub proof fn lemma_entries_distinct(&self)
        requires
            self.wf(),
        ensures
            forall|i: int, j: int|
                0 <= i < self.spec_entries().len() && 0 <= j < self.spec_entries().len() && i != j
                    ==> (#[trigger] self.spec_entries()[i]).0 != (#[trigger] self.spec_entries()[j]).0,
    {
        let o = self.list.spec_order();
        let e = self.spec_entries();
        lemma_order_distinct(&self.list);
        assert forall|i: int, j: int|
            0 <= i < e.len() && 0 <= j < e.len() && i != j implies (#[trigger] e[i]).0 != (
            #[trigger] e[j]).0 by {
            if e[i].0 == e[j].0 {
                assert(self.list.spec_contains(o[i]));
                assert(self.list.spec_contains(o[j]));
                assert(o[i] != o[j]);
            }
        }
    }

    /// The stamps grow strictly from front to back, and none is past the
    /// counter: a connection touched last has the largest stamp.
    pub proof fn lemma_stamps(&self)
        requires
            self.wf(),
        ensures
            forall|i: int, j: int|
                0 <= i < j < self.spec_entries().len() ==> (#[trigger] self.spec_entries()[i]).1 < (
                #[trigger] self.spec_entries()[j]).1,
            forall|i: int|
                0 <= i < self.spec_entries().len() ==> (#[trigger] self.spec_entries()[i]).1
                    <= self.spec_counter(),
            self.spec_boundary() <= self.spec_counter(),
    {
    }

    /// Whether a connection is in the index.
    pub fn contains(&self, short: ShortConnectionId) -> (r: bool)
        requires
            self.wf(),
        ensures
            r == exists|k: int|
                0 <= k < self.spec_entries().len() && (#[trigger] self.spec_entries()[k]).0 == short,
    {
        let key = short.key();
        let r = self.index.contains_key(&key);
        proof {
            let e = self.spec_entries();
            let o = self.list.spec_order();
            if r {
                let p = self.index@[key];
                let k = choose|k: int| 0 <= k < o.len() && o[k] == p;
                lemma_key_injective(self.list.spec_value(p).short, short);
                assert(e[k].0 == short);
            } else {
                assert forall|k: int| 0 <= k < e.len() implies (#[trigger] e[k]).0 != short by {
                    assert(self.list.spec_contains(o[k]));
                }
            }
        }
        r
    }

    /// Stamps a connection with the next stamp and moves it to the back, or
    /// appends it there if it was not in the index.
    pub fn touch(&mut self, short: ShortConnectionId)
        requires
            old(self).wf(),
            old(self).spec_counter() < u64::MAX,
            old(self).spec_entries().len() + 1 < usize::MAX,
        ensures
            final(self).wf(),
            final(self).spec_counter() == old(self).spec_counter() + 1,
            final(self).spec_boundary() == old(self).spec_boundary(),
            final(self).spec_pending() == old(self).spec_pending(),
            forall|k: int|
                0 <= k < old(self).spec_entries().len() && (#[trigger] old(self).spec_entries()[k]).0
                    == short ==> final(self).spec_entries() == old(self).spec_entries().remove(k).push(
                    (short, (old(self).spec_counter() + 1) as u64),
                ),
            (forall|k: int|
                0 <= k < old(self).spec_entries().len() ==> (#[trigger] old(
                    self,
                ).spec_entries()[k]).0 != short) ==> final(self).spec_entries() == old(
                self,
            ).spec_entries().push((short, (old(self).spec_counter() + 1) as u64)),
    {
        proof {
            self.lemma_entries_distinct();
        }
        let key = short.key();
        let idx = self.counter + 1;
        let node = HeartbeatNode { idx, short };
        let found = match self.index.get(&key) {
            Some(p) => Some(*p),
            None => None,
        };
        match found {
            Some(p) => self.touch_present(p, node),
            None => self.touch_absent(node),
        }
    }

    fn touch_present(&mut self, p: NodePtr, node: HeartbeatNode)
        requires
            old(self).wf(),
            old(self).counter < u64::MAX,
            node.idx == old(self).counter + 1,
            old(self).index@.contains_key(key_of(node.short@)),
            old(self).index@[key_of(node.short@)] == p,
        ensures
            final(self).wf(),
            final(self).counter == node.idx,
            final(self).boundary == old(self).boundary,
            final(self).pending == old(self).pending,
            forall|k: int|
                0 <= k < old(self).spec_entries().len() && (#[trigger] old(self).spec_entries()[k]).0
                    == node.short ==> final(self).spec_entries() == old(self).spec_entries().remove(
                    k,
                ).push((node.short, node.idx)),
            exists|k: int|
                0 <= k < old(self).spec_entries().len() && (#[trigger] old(self).spec_entries()[k]).0
                    == node.short,
    {
        let ghost o = self.list.spec_order();
        let ghost e = self.spec_entries();
        let ghost s0 = self.list;
        let ghost k = o.index_of(p);
        proof {
            self.lemma_entries_distinct();
            lemma_order_distinct(&self.list);
            lemma_key_injective(self.list.spec_value(p).short, node.short);
            assert(e[k].0 == node.short);
        }
        self.counter = node.idx;
        self.list.set(p, node);
        let ghost mid = self.list;
        self.list.move_to_back(p);
        proof {
            let o2 = self.list.spec_order();
            lemma_relocated(o, k, o2);
            assert forall|q: NodePtr| #[trigger] self.list.spec_contains(q) implies self.list.spec_value(q) == (if q == p {
                node
            } else {
                s0.spec_value(q)
            }) by {
                assert(o2.contains(q));
                assert(o.contains(q));
                assert(mid.spec_contains(q));
            }
            let e2 = self.spec_entries();
            assert(o2 =~= o.remove(k).push(p));
            assert forall|j: int| 0 <= j < e2.len() implies #[trigger] e2[j] == e.remove(k).push((node.short, node.idx))[j] by {
                assert(o2.contains(o2[j]));
                assert(self.list.spec_contains(o2[j]));
                if j < o.len() - 1 {
                    let j0 = if j < k { j } else { j + 1 };
                    assert(o2[j] == o[j0]);
                    assert(o[j0] != p);
                } else {
                    assert(o2[j] == p);
                }
            }
            assert(e2 =~= e.remove(k).push((node.short, node.idx)));
            assert forall|kk: int| 0 <= kk < e.len() && (#[trigger] e[kk]).0 == node.short implies kk == k by {}
            assert forall|q: NodePtr| #[trigger] self.list.spec_contains(q) implies self.index@.contains_key(
                key_of(self.list.spec_value(q).short@),
            ) && self.index@[key_of(self.list.spec_value(q).short@)] == q by {
                assert(s0.spec_contains(q));
            }
            assert forall|kk: u128| #[trigger] self.index@.contains_key(kk) implies self.list.spec_contains(self.index@[kk]) && key_of(
                self.list.spec_value(self.index@[kk]).short@,
            ) == kk by {
                let q = self.index@[kk];
                assert(s0.spec_contains(q));
                assert(o.contains(q));
                assert(o2.contains(q));
                assert(self.list.spec_contains(q));
            }
            let r = e.remove(k);
            assert forall|i: int, j: int| 0 <= i < j < e2.len() implies (#[trigger] e2[i]).1 < (#[trigger] e2[j]).1 by {
                if j < e2.len() - 1 {
                    let i0 = if i < k { i } else { i + 1 };
                    let j0 = if j < k { j } else { j + 1 };
                    assert(e2[i] == e[i0] && e2[j] == e[j0]);
                } else {
                    let i0 = if i < k { i } else { i + 1 };
                    assert(e2[i] == e[i0]);
                }
            }
            assert forall|i: int| 0 <= i < e2.len() implies (#[trigger] e2[i]).1 <= self.counter by {
                if i < e2.len() - 1 {
                    let i0 = if i < k { i } else { i + 1 };
                    assert(e2[i] == e[i0]);
                }
            }
        }
    }

    fn touch_absent(&mut self, node: HeartbeatNode)
        requires
            old(self).wf(),
            old(self).counter < u64::MAX,
            node.idx == old(self).counter + 1,
            !old(self).index@.contains_key(key_of(node.short@)),
            old(self).spec_entries().len() + 1 < usize::MAX,
        ensures
            final(self).wf(),
            final(self).counter == node.idx,
            final(self).boundary == old(self).boundary,
            final(self).pending == old(self).pending,
            forall|k: int|
                0 <= k < old(self).spec_entries().len() ==> (#[trigger] old(self).spec_entries()[k]).0
                    != node.short,
            final(self).spec_entries() == old(self).spec_entries().push((node.short, node.idx)),
    {
        let ghost o = self.list.spec_order();
        let ghost e = self.spec_entries();
        let ghost s0 = self.list;
        let ghost i0 = self.index@;
        let key = node.short.key();
        proof {
            assert forall|k: int| 0 <= k < e.len() implies (#[trigger] e[k]).0 != node.short by {
                assert(self.list.spec_contains(o[k]));
            }
        }
        self.counter = node.idx;
        let p = self.list.push_back(node);
        self.index.insert(key, p);
        proof {
            assert(self.index@ == i0.insert(key, p));
            let o2 = self.list.spec_order();
            let e2 = self.spec_entries();
            assert forall|j: int| 0 <= j < e2.len() implies #[trigger] e2[j] == e.push((node.short, node.idx))[j] by {
                if j < o.len() {
                    assert(o2[j] == o[j]);
                    assert(s0.spec_contains(o[j]));
                }
            }
            assert(e2 =~= e.push((node.short, node.idx)));
            assert forall|q: NodePtr| #[trigger] self.list.spec_contains(q) implies self.index@.contains_key(
                key_of(self.list.spec_value(q).short@),
            ) && self.index@[key_of(self.list.spec_value(q).short@)] == q by {
                if q != p {
                    let j = choose|j: int| 0 <= j < o2.len() && o2[j] == q;
                    assert(j < o.len());
                    assert(o[j] == q);
                    assert(s0.spec_contains(q));
                }
            }
            assert forall|kk: u128| #[trigger] self.index@.contains_key(kk) implies self.list.spec_contains(self.index@[kk]) && key_of(
                self.list.spec_value(self.index@[kk]).short@,
            ) == kk by {
                if kk != key {
                    let q = i0[kk];
                    assert(s0.spec_contains(q));
                    let j = choose|j: int| 0 <= j < o.len() && o[j] == q;
                    assert(o2[j] == q);
                    assert(o2.contains(q));
                    assert(self.list.spec_contains(q));
                } else {
                    assert(o2[o2.len() - 1] == p);
                    assert(o2.contains(p));
                }
            }
            assert forall|i: int, j: int| 0 <= i < j < e2.len() implies (#[trigger] e2[i]).1 < (#[trigger] e2[j]).1 by {
                assert(e2[i] == e[i]);
                if j < e.len() {
                    assert(e2[j] == e[j]);
                }
            }
            assert forall|i: int| 0 <= i < e2.len() implies (#[trigger] e2[i]).1 <= self.counter by {
                if i < e.len() {
                    assert(e2[i] == e[i]);
                }
            }
        }
    }
}

impl HeartbeatManager {
    /// Takes a connection out of the index; nothing changes where it is not
    /// there.
    pub fn remove(&mut self, short: ShortConnectionId)
        requires
            old(self).wf(),
        ensures
            final(self).wf(),
            final(self).spec_counter() == old(self).spec_counter(),
            final(self).spec_boundary() == old(self).spec_boundary(),
            final(self).spec_pending() == old(self).spec_pending(),
            forall|k: int|
                0 <= k < old(self).spec_entries().len() && (#[trigger] old(self).spec_entries()[k]).0
                    == short ==> final(self).spec_entries() == old(self).spec_entries().remove(k),
            (forall|k: int|
                0 <= k < old(self).spec_entries().len() ==> (#[trigger] old(
                    self,
                ).spec_entries()[k]).0 != short) ==> final(self).spec_entries() == old(
                self,
            ).spec_entries(),
    {
        proof {
            self.lemma_entries_distinct();
            lemma_order_distinct(&self.list);
        }
        let ghost o = self.list.spec_order();
        let ghost e = self.spec_entries();
        let ghost s0 = self.list;
        let ghost i0 = self.index@;
        let key = short.key();
        let found = match self.index.get(&key) {
            Some(p) => Some(*p),
            None => None,
        };
        match found {
            Some(p) => {
                let ghost k = o.index_of(p);
                proof {
                    lemma_key_injective(s0.spec_value(p).short, short);
                    assert(e[k].0 == short);
                }
                proof {
                    assert(s0.spec_contains(p));
                }
                self.index.remove(&key);
                self.list.remove(p);
                proof {
                    let o2 = self.list.spec_order();
                    assert(o2 == o.remove(k));
                    let e2 = self.spec_entries();
                    assert(self.index@ == i0.remove(key));
                    assert forall|j: int| 0 <= j < e2.len() implies #[trigger] e2[j] == e.remove(k)[j] by {
                        let j0 = if j < k { j } else { j + 1 };
                        assert(o2[j] == o[j0]);
                        assert(o2.contains(o2[j]));
                        assert(self.list.spec_contains(o2[j]));
                    }
                    assert(e2 =~= e.remove(k));
                    assert forall|kk: int| 0 <= kk < e.len() && (#[trigger] e[kk]).0 == short implies kk == k by {}
                    assert forall|q: NodePtr| #[trigger] self.list.spec_contains(q) implies self.index@.contains_key(
                        key_of(self.list.spec_value(q).short@),
                    ) && self.index@[key_of(self.list.spec_value(q).short@)] == q by {
                        let j = choose|j: int| 0 <= j < o2.len() && o2[j] == q;
                        let j0 = if j < k { j } else { j + 1 };
                        assert(o[j0] == q);
                        assert(s0.spec_contains(q));
                        assert(q != p);
                    }
                    assert forall|kk: u128| #[trigger] self.index@.contains_key(kk) implies self.list.spec_contains(self.index@[kk]) && key_of(
                        self.list.spec_value(self.index@[kk]).short@,
                    ) == kk by {
                        let q = i0[kk];
                        assert(s0.spec_contains(q));
                        assert(q != p);
                        let j = choose|j: int| 0 <= j < o.len() && o[j] == q;
                        assert(j != k);
                        let j2 = if j < k { j } else { j - 1 };
                        assert(o2[j2] == q);
                        assert(o2.contains(q));
                        assert(self.list.spec_contains(q));
                    }
                    assert forall|i: int, j: int| 0 <= i < j < e2.len() implies (#[trigger] e2[i]).1 < (#[trigger] e2[j]).1 by {
                        let i0 = if i < k { i } else { i + 1 };
                        let j0 = if j < k { j } else { j + 1 };
                        assert(e2[i] == e[i0] && e2[j] == e[j0]);
                    }
                    assert forall|i: int| 0 <= i < e2.len() implies (#[trigger] e2[i]).1 <= self.counter by {
                        let i0 = if i < k { i } else { i + 1 };
                        assert(e2[i] == e[i0]);
                    }
                }
            },
            None => {
                proof {
                    assert forall|k: int| 0 <= k < e.len() implies (#[trigger] e[k]).0 != short by {
                        assert(s0.spec_contains(o[k]));
                    }
                }
            },
        }
    }

    /// Hands out, front to back, the connections stamped at or before the
    /// last tick, at most `TICK_LIMIT` and at most `room` of them, stopping at
    /// the first that was touched since; then moves the boundary to the
    /// latest stamp.
    pub fn tick(&mut self, room: usize) -> (r: Vec<ShortConnectionId>)
        requires
            old(self).wf(),
        ensures
            final(self).wf(),
            final(self).spec_entries() == old(self).spec_entries(),
            final(self).spec_counter() == old(self).spec_counter(),
            final(self).spec_boundary() == old(self).spec_counter(),
            final(self).spec_pending() == if old(self).spec_pending() + r@.len() > usize::MAX {
                usize::MAX as int
            } else {
                old(self).spec_pending() + r@.len()
            },
            r@.len() <= TICK_LIMIT,
            r@.len() <= room,
            r@.len() <= old(self).spec_entries().len(),
            forall|i: int|
                0 <= i < r@.len() ==> r@[i] == (#[trigger] old(self).spec_entries()[i]).0
                    && old(self).spec_entries()[i].1 <= old(self).spec_boundary(),
            r@.len() < TICK_LIMIT && r@.len() < room && r@.len() < old(self).spec_entries().len()
                ==> old(self).spec_entries()[r@.len() as int].1 > old(self).spec_boundary(),
    {
        let ghost o = self.list.spec_order();
        let ghost e = self.spec_entries();
        proof {
            lemma_order_distinct(&self.list);
        }
        let limit: usize = if room < TICK_LIMIT {
            room
        } else {
            TICK_LIMIT
        };
        let mut out: Vec<ShortConnectionId> = Vec::new();
        let mut cur = self.list.front();
        while out.len() < limit
            invariant
                self.wf(),
                self.list.spec_order() == o,
                self.spec_entries() == e,
                o.no_duplicates(),
                limit <= TICK_LIMIT,
                limit <= room,
                out@.len() <= limit,
                out@.len() <= e.len(),
                cur == if out@.len() < o.len() {
                    Some(o[out@.len() as int])
                } else {
                    None::<NodePtr>
                },
                forall|i: int| 0 <= i < out@.len() ==> out@[i] == (#[trigger] e[i]).0 && e[i].1 <= self.boundary,
            ensures
                self.wf(),
                self.list.spec_order() == o,
                self.spec_entries() == e,
                out@.len() <= limit,
                out@.len() <= e.len(),
                forall|i: int| 0 <= i < out@.len() ==> out@[i] == (#[trigger] e[i]).0 && e[i].1 <= self.boundary,
                out@.len() == limit || out@.len() == e.len() || e[out@.len() as int].1 > self.boundary,
            decreases limit - out@.len(),
        {
            match cur {
                None => {
                    break;
                },
                Some(p) => {
                    let ghost i = out@.len() as int;
                    proof {
                        assert(o.contains(o[i]));
                    }
                    let node = deref_node(&self.list, p);
                    if node.idx > self.boundary {
                        break;
                    }
                    out.push(node.short);
                    proof {
                        lemma_index_of_unique(o, i);
                    }
                    cur = self.list.next(p);
                },
            }
        }
        self.boundary = self.counter;
        self.pending = self.pending.saturating_add(out.len());
        out
    }
}

} // verus!
