//! The deferred closer: a delay queue that batches socket teardown so that
//! closing never blocks the code that decided to disconnect.

use vstd::prelude::*;
use std::collections::VecDeque;

verus! {

/// How long a socket waits between being scheduled and being closed, in
/// milliseconds.
pub const CLOSE_TIMEOUT_MS: u64 = 1000;

/// Whether an entry scheduled at `ts` is due at `now`.
pub open spec fn is_due(ts: u64, now: u64) -> bool {
    now >= ts + CLOSE_TIMEOUT_MS
}

/// Whether socket `id` waits in `p`.
pub open spec fn waits_in(p: Seq<(u128, u64)>, id: u128) -> bool {
    exists|i: int| 0 <= i < p.len() && (#[trigger] p[i]).0 == id
}

/// The latest schedule time in `p`, zero for an empty list.
pub open spec fn last_time(p: Seq<(u128, u64)>) -> u64 {
    if p.len() == 0 {
        0
    } else {
        p.last().1
    }
}

/// The waiting list after socket `id` is scheduled at `now`: appended with
/// time `now`, or with the latest time already there should the clock have
/// gone back, so that times stay in order; unchanged where it already waits.
pub open spec fn scheduled(p: Seq<(u128, u64)>, id: u128, now: u64) -> Seq<(u128, u64)> {
    if waits_in(p, id) {
        p
    } else if now >= last_time(p) {
        p.push((id, now))
    } else {
        p.push((id, last_time(p)))
    }
}

/// Sockets waiting to be closed, by id, with the time each was scheduled, in
/// the order they were scheduled.
pub struct DeferredCloser {
    pending: VecDeque<(u128, u64)>,
}

impl DeferredCloser {
    /// The waiting sockets and their schedule times, oldest first.
    pub closed spec fn spec_pending(&self) -> Seq<(u128, u64)> {
        self.pending@
    }

    /// No socket waits twice, and the schedule times are in order.
    pub open spec fn wf(&self) -> bool {
        forall|i: int, j: int|
            0 <= i < j < self.spec_pending().len() ==> (#[trigger] self.spec_pending()[i]).0 != (
            #[trigger] self.spec_pending()[j]).0 && self.spec_pending()[i].1 <= self.spec_pending()[j].1
    }

    /// An empty queue.
    pub fn new() -> (r: DeferredCloser)
        ensures
            r.wf(),
            r.spec_pending() == Seq::<(u128, u64)>::empty(),
    {
        DeferredCloser { pending: VecDeque::new() }
    }

    /// The number of waiting sockets.
    pub fn len(&self) -> (r: usize)
        ensures
            r == self.spec_pending().len(),
    {
        self.pending.len()
    }

    /// Schedules socket `id` for closing at time `now`; a socket already
    /// waiting keeps its place and time.
    pub fn schedule_close(&mut self, id: u128, now: u64)
        requires
            old(self).wf(),
        ensures
            final(self).wf(),
            final(self).spec_pending() == scheduled(old(self).spec_pending(), id, now),
    {
        let mut i: usize = 0;
        while i < self.pending.len()
            invariant
                0 <= i <= self.pending@.len(),
                self.pending@ == old(self).pending@,
                old(self).wf(),
                forall|j: int| 0 <= j < i ==> (#[trigger] self.pending@[j]).0 != id,
            decreases self.pending@.len() - i,
        {
            if self.pending[i].0 == id {
                proof {
                    assert(old(self).spec_pending()[i as int].0 == id);
                }
                return;
            }
            i = i + 1;
        }
        let n = self.pending.len();
        let last: u64 = if n == 0 {
            0
        } else {
            self.pending[n - 1].1
        };
        let at: u64 = if now >= last {
            now
        } else {
            last
        };
        self.pending.push_back((id, at));
        proof {
            assert forall|j: int| 0 <= j < old(self).spec_pending().len() implies (#[trigger] old(self).spec_pending()[j]).0 != id by {
                assert(old(self).pending@[j].0 != id);
            }
            let p = self.pending@;
            let o = old(self).pending@;
            assert forall|a: int| 0 <= a < o.len() implies (#[trigger] o[a]).1 <= last by {
                if a < o.len() - 1 {
                    assert(o[a].1 <= o[o.len() - 1].1);
                }
            }
            assert forall|a: int, b: int| 0 <= a < b < p.len() implies (#[trigger] p[a]).0 != (#[trigger] p[b]).0
                && p[a].1 <= p[b].1 by {
                if b == p.len() - 1 {
                    assert(p[a] == old(self).pending@[a]);
                } else {
                    assert(p[a] == old(self).pending@[a] && p[b] == old(self).pending@[b]);
                }
            }
        }
    }

    /// Takes out, oldest first, the sockets scheduled at least
    /// `CLOSE_TIMEOUT_MS` before `now`, stopping at the first that is not
    /// due; the caller closes them as one batch.
    pub fn sweep(&mut self, now: u64) -> (r: Vec<u128>)
        requires
            old(self).wf(),
        ensures
            final(self).wf(),
            r@.len() <= old(self).spec_pending().len(),
            forall|i: int|
                0 <= i < r@.len() ==> r@[i] == (#[trigger] old(self).spec_pending()[i]).0 && is_due(
                    old(self).spec_pending()[i].1,
                    now,
                ),
            forall|i: int|
                r@.len() <= i < old(self).spec_pending().len() ==> !is_due(
                    #[trigger] old(self).spec_pending()[i].1,
                    now,
                ),
            final(self).spec_pending() == old(self).spec_pending().subrange(
                r@.len() as int,
                old(self).spec_pending().len() as int,
            ),
    {
        let ghost start = self.pending@;
        let mut out: Vec<u128> = Vec::new();
        while self.pending.len() > 0
            invariant
                out@.len() <= start.len(),
                self.pending@ == start.subrange(out@.len() as int, start.len() as int),
                forall|i: int| 0 <= i < out@.len() ==> out@[i] == (#[trigger] start[i]).0 && is_due(start[i].1, now),
            ensures
                out@.len() <= start.len(),
                self.pending@ == start.subrange(out@.len() as int, start.len() as int),
                forall|i: int| 0 <= i < out@.len() ==> out@[i] == (#[trigger] start[i]).0 && is_due(start[i].1, now),
                out@.len() < start.len() ==> !is_due(start[out@.len() as int].1, now),
            decreases self.pending@.len(),
        {
            let (id, ts) = self.pending[0];
            if now < ts || now - ts < CLOSE_TIMEOUT_MS {
                break;
            }
            self.pending.pop_front();
            out.push(id);
            proof {
                assert(self.pending@ =~= start.subrange(out@.len() as int, start.len() as int));
            }
        }
        proof {
            let k = out@.len() as int;
            assert forall|i: int| k <= i < start.len() implies !is_due(#[trigger] start[i].1, now) by {
                assert(start[k].1 <= start[i].1);
            }
            let p = self.pending@;
            assert forall|a: int, b: int| 0 <= a < b < p.len() implies (#[trigger] p[a]).0 != (#[trigger] p[b]).0
                && p[a].1 <= p[b].1 by {
                assert(p[a] == start[a + k] && p[b] == start[b + k]);
            }
        }
        out
    }
}

/// A socket scheduled twice waits exactly once: a sweep, which takes a
/// prefix of the waiting list, hands it out at most once, and once handed out
/// it no longer waits.
pub proof fn lemma_scheduled_twice_waits_once(p: Seq<(u128, u64)>, id: u128, t1: u64, t2: u64)
    requires
        forall|i: int, j: int| 0 <= i < j < p.len() ==> (#[trigger] p[i]).0 != (#[trigger] p[j]).0,
    ensures
        waits_in(scheduled(scheduled(p, id, t1), id, t2), id),
        forall|i: int, j: int|
            0 <= i < scheduled(scheduled(p, id, t1), id, t2).len() && 0 <= j < scheduled(
                scheduled(p, id, t1),
                id,
                t2,
            ).len() && (#[trigger] scheduled(scheduled(p, id, t1), id, t2)[i]).0 == id && (
            #[trigger] scheduled(scheduled(p, id, t1), id, t2)[j]).0 == id ==> i == j,
{
    let q1 = scheduled(p, id, t1);
    if !waits_in(p, id) {
        assert(q1[q1.len() - 1].0 == id);
        assert forall|i: int| 0 <= i < p.len() implies (#[trigger] q1[i]).0 != id by {
            assert(q1[i] == p[i]);
        }
    }
    assert(waits_in(q1, id));
    let q2 = scheduled(q1, id, t2);
    assert(q2 == q1);
}

/// A newly scheduled socket is stamped no earlier than the time it was
/// scheduled at, so it is not due before that time plus the timeout.
pub proof fn lemma_stamp_not_before(p: Seq<(u128, u64)>, id: u128, now: u64)
    requires
        !waits_in(p, id),
    ensures
        scheduled(p, id, now).last().0 == id,
        scheduled(p, id, now).last().1 >= now,
{
}

/// An entry comes out of a sweep only once it is due: never before its
/// schedule time plus the timeout.
pub proof fn lemma_not_closed_early(ts: u64, now: u64)
    requires
        now < ts + CLOSE_TIMEOUT_MS,
    ensures
        !is_due(ts, now),
{
}

} // verus!
