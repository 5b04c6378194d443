//! The balancer: owns the endpoint table and the waiter queue, consumes
//! resolver updates, and serves connect requests.
//!
//! Its well-formedness invariant carries the balancer laws: per-address
//! counters are consistent (the session count equals the sum of `active` over
//! the table), the waiter queue never exceeds its bound, and the table stays
//! unique by address.

use vstd::prelude::*;
use crate::Addr;
use crate::WeightedAddr;
use crate::endpoint::EndpointState;
use crate::endpoint::Status;
use crate::endpoint::Table;
use crate::endpoint::dedup;
use crate::endpoint::keep_one;
use crate::endpoint::new_record;
use crate::endpoint::spec_added;
use crate::endpoint::spec_dedup;
use crate::endpoint::spec_keep;
use crate::endpoint::spec_reconcile;
use crate::select::sel_weight;
use crate::select::selectable;
use crate::waiter::WaiterQueue;

verus! {

/// The sum of `active` over the rows `t`.
pub open spec fn sum_active(t: Seq<EndpointState>) -> int
    decreases t.len(),
{
    if t.len() == 0 {
        0
    } else {
        sum_active(t.drop_last()) + t.last().active
    }
}

/// The sum of `active` over two row runs is the sum over each.
pub proof fn lemma_sum_active_concat(a: Seq<EndpointState>, b: Seq<EndpointState>)
    ensures
        sum_active(a + b) == sum_active(a) + sum_active(b),
    decreases b.len(),
{
    if b.len() == 0 {
        assert(a + b =~= a);
    } else {
        lemma_sum_active_concat(a, b.drop_last());
        assert((a + b).drop_last() =~= a + b.drop_last());
        assert((a + b).last() == b.last());
    }
}

/// Replacing row `i` moves the sum by the difference of the `active` fields.
pub proof fn lemma_sum_active_update(t: Seq<EndpointState>, i: int, e: EndpointState)
    requires
        0 <= i < t.len(),
    ensures
        sum_active(t.update(i, e)) == sum_active(t) - t[i].active + e.active,
    decreases t.len(),
{
    if i == t.len() - 1 {
        assert(t.update(i, e).drop_last() =~= t.drop_last());
        assert(t.update(i, e).last() == e);
    } else {
        lemma_sum_active_update(t.drop_last(), i, e);
        assert(t.update(i, e).drop_last() =~= t.drop_last().update(i, e));
        assert(t.update(i, e).last() == t.last());
    }
}

/// No single row holds more active sessions than the whole table.
pub proof fn lemma_sum_active_at_least(t: Seq<EndpointState>, i: int)
    requires
        0 <= i < t.len(),
    ensures
        sum_active(t) >= t[i].active,
        sum_active(t) >= 0,
    decreases t.len(),
{
    if i == t.len() - 1 {
        lemma_sum_active_nonneg(t.drop_last());
    } else {
        lemma_sum_active_at_least(t.drop_last(), i);
    }
}

/// The sum of `active` is never negative.
pub proof fn lemma_sum_active_nonneg(t: Seq<EndpointState>)
    ensures
        sum_active(t) >= 0,
    decreases t.len(),
{
    if t.len() > 0 {
        lemma_sum_active_nonneg(t.drop_last());
    }
}

/// Reconciliation never changes the number of active sessions: rows are
/// removed only once drained, and fresh rows carry no sessions.
pub proof fn lemma_sum_active_reconcile(t: Seq<EndpointState>, s: Seq<WeightedAddr>)
    ensures
        sum_active(spec_reconcile(t, s)) == sum_active(t),
{
    lemma_sum_active_keep(t, s);
    lemma_sum_active_added(t, s);
    lemma_sum_active_concat(spec_keep(t, s), spec_added(t, s));
}

proof fn lemma_sum_active_keep(t: Seq<EndpointState>, s: Seq<WeightedAddr>)
    ensures
        sum_active(spec_keep(t, s)) == sum_active(t),
    decreases t.len(),
{
    if t.len() == 0 {
    } else {
        lemma_sum_active_keep(t.drop_last(), s);
        lemma_sum_active_concat(spec_keep(t.drop_last(), s), keep_one(t.last(), s));
        let e = t.last();
        let k = keep_one(e, s);
        assert(sum_active(k) == e.active) by {
            if k.len() > 0 {
                assert(k.drop_last() =~= Seq::<EndpointState>::empty());
                assert(sum_active(k) == sum_active(k.drop_last()) + k.last().active);
                assert(sum_active(Seq::<EndpointState>::empty()) == 0);
                assert(k.last().active == e.active);
            } else {
                assert(!(crate::endpoint::wa_contains(s, e.addr)) && e.pending + e.active <= 0);
            }
        }
        assert(spec_keep(t, s) == spec_keep(t.drop_last(), s) + k);
    }
}

proof fn lemma_sum_active_added(t: Seq<EndpointState>, s: Seq<WeightedAddr>)
    ensures
        sum_active(spec_added(t, s)) == 0,
    decreases s.len(),
{
    if s.len() == 0 {
    } else {
        lemma_sum_active_added(t, s.drop_last());
        let piece = if crate::endpoint::ep_contains(t, s.last().addr) {
            Seq::<EndpointState>::empty()
        } else {
            seq![new_record(s.last())]
        };
        lemma_sum_active_concat(spec_added(t, s.drop_last()), piece);
        assert(spec_added(t, s) == spec_added(t, s.drop_last()) + piece);
        if piece.len() > 0 {
            assert(piece.drop_last() =~= Seq::<EndpointState>::empty());
            assert(sum_active(piece) == sum_active(piece.drop_last()) + piece.last().active);
            assert(sum_active(Seq::<EndpointState>::empty()) == 0);
            assert(piece.last().active == 0);
        }
    }
}

/// The outcome of one connect request.
#[derive(Clone, Copy, PartialEq, Eq, Structural, Debug)]
pub enum RequestOutcome {
    /// A candidate was chosen; a connect to `addr` is now pending on row
    /// `index`.
    Selected { index: usize, addr: Addr },
    /// No candidate carries weight; the waiter was queued.
    Enqueued,
    /// No candidate carries weight and the queue is full: no endpoints.
    Rejected,
}

/// The balancer.
#[derive(Clone, Debug)]
pub struct Balancer {
    pub table: Table,
    pub waiters: WaiterQueue,
    /// Consecutive connect failures at which an endpoint turns `Failed`.
    pub failure_threshold: u64,
    /// How long a `Failed` endpoint rests before it may be probed again.
    pub cooldown: u64,
    /// The number of live forwarding sessions.
    pub active_sessions: u64,
}

impl Balancer {
    /// The balancer invariant: a well-formed table, a bounded waiter queue,
    /// and a session count equal to the sum of `active` over the table.
    pub open spec fn wf(self) -> bool {
        &&& self.table.wf()
        &&& self.waiters.wf()
        &&& self.active_sessions == sum_active(self.table.rows@)
    }

    pub fn new(max_waiters: usize, failure_threshold: u64, cooldown: u64) -> (r: Balancer)
        ensures
            r.wf(),
            r.table.rows@ =~= Seq::<EndpointState>::empty(),
            r.waiters.items@ =~= Seq::<u64>::empty(),
            r.waiters.max == max_waiters,
            r.failure_threshold == failure_threshold,
            r.cooldown == cooldown,
            r.active_sessions == 0,
    {
        Balancer {
            table: Table::new(),
            waiters: WaiterQueue::new(max_waiters),
            failure_threshold,
            cooldown,
            active_sessions: 0,
        }
    }

    /// Reconciles the table against a resolver update (duplicates folded,
    /// last writer wins). Active sessions and waiters are untouched.
    pub fn apply_update(&mut self, update: &Vec<WeightedAddr>)
        requires
            old(self).wf(),
        ensures
            final(self).wf(),
            final(self).table.rows@ == spec_reconcile(
                old(self).table.rows@,
                spec_dedup(update@),
            ),
            final(self).waiters == old(self).waiters,
            final(self).active_sessions == old(self).active_sessions,
            final(self).failure_threshold == old(self).failure_threshold,
            final(self).cooldown == old(self).cooldown,
    {
        let d = dedup(update);
        proof {
            lemma_sum_active_reconcile(self.table.rows@, d@);
        }
        self.table.reconcile(&d);
    }

    /// Serves one connect request for waiter token `w`: selects a candidate
    /// by weighted random draw and marks a connect pending on it; with no
    /// weighted candidate, enqueues the waiter while the queue has room and
    /// rejects the request (no endpoints) once it is full.
    pub fn connect_request(&mut self, w: u64) -> (r: RequestOutcome)
        requires
            old(self).wf(),
            forall|i: int|
                0 <= i < old(self).table.rows@.len() ==> (#[trigger] old(
                    self,
                ).table.rows@[i]).pending < u64::MAX,
        ensures
            final(self).wf(),
            final(self).active_sessions == old(self).active_sessions,
            final(self).failure_threshold == old(self).failure_threshold,
            final(self).cooldown == old(self).cooldown,
            match r {
                RequestOutcome::Selected { index, addr } => {
                    &&& index < old(self).table.rows@.len()
                    &&& selectable(old(self).table.rows@[index as int], None)
                    &&& old(self).table.rows@[index as int].weight > 0
                    &&& addr == old(self).table.rows@[index as int].addr
                    &&& final(self).table.rows@ == old(self).table.rows@.update(
                        index as int,
                        EndpointState {
                            pending: (old(self).table.rows@[index as int].pending + 1) as u64,
                            ..old(self).table.rows@[index as int]
                        },
                    )
                    &&& final(self).waiters == old(self).waiters
                },
                RequestOutcome::Enqueued => {
                    &&& sel_weight(old(self).table.rows@, None) == 0
                    &&& old(self).waiters.items@.len() < old(self).waiters.max
                    &&& final(self).waiters.items@ == old(self).waiters.items@.push(w)
                    &&& final(self).waiters.max == old(self).waiters.max
                    &&& final(self).table == old(self).table
                },
                RequestOutcome::Rejected => {
                    &&& sel_weight(old(self).table.rows@, None) == 0
                    &&& old(self).waiters.items@.len() == old(self).waiters.max
                    &&& final(self).waiters.items@ == old(self).waiters.items@
                    &&& final(self).waiters.max == old(self).waiters.max
                    &&& final(self).table == old(self).table
                },
            },
    {
        match self.table.select(None) {
            Some(i) => {
                let e = self.table.get(i);
                let updated = EndpointState { pending: e.pending + 1, ..e };
                proof {
                    lemma_sum_active_update(self.table.rows@, i as int, updated);
                }
                let slot = vstd::std_specs::vec::vec_index_mut(&mut self.table.rows, i);
                *slot = updated;
                let addr = updated.addr;
                proof {
                    assert forall|p: int, q: int|
                        0 <= p < q < self.table.rows@.len() implies self.table.rows@[p].addr
                        != self.table.rows@[q].addr by {
                        assert(old(self).table.rows@[p].addr != old(self).table.rows@[q].addr);
                    }
                }
                RequestOutcome::Selected { index: i, addr }
            },
            None => {
                if self.waiters.enqueue(w) {
                    RequestOutcome::Enqueued
                } else {
                    RequestOutcome::Rejected
                }
            },
        }
    }

    /// Marks a connect attempt pending on row `i`, chosen by the caller (the
    /// in-session retry picks its row with the failed address excluded).
    pub fn begin_connect(&mut self, i: usize)
        requires
            old(self).wf(),
            i < old(self).table.rows@.len(),
            old(self).table.rows@[i as int].pending < u64::MAX,
        ensures
            final(self).wf(),
            final(self).table.rows@ == old(self).table.rows@.update(
                i as int,
                EndpointState {
                    pending: (old(self).table.rows@[i as int].pending + 1) as u64,
                    ..old(self).table.rows@[i as int]
                },
            ),
            final(self).active_sessions == old(self).active_sessions,
            final(self).waiters == old(self).waiters,
            final(self).failure_threshold == old(self).failure_threshold,
            final(self).cooldown == old(self).cooldown,
    {
        let e = self.table.get(i);
        let updated = EndpointState { pending: e.pending + 1, ..e };
        proof {
            lemma_sum_active_update(self.table.rows@, i as int, updated);
        }
        let slot = vstd::std_specs::vec::vec_index_mut(&mut self.table.rows, i);
        *slot = updated;
        proof {
            assert forall|p: int, q: int|
                0 <= p < q < self.table.rows@.len() implies self.table.rows@[p].addr
                != self.table.rows@[q].addr by {
                assert(old(self).table.rows@[p].addr != old(self).table.rows@[q].addr);
            }
        }
    }

    /// Records a successful connect on row `i`: the attempt is no longer
    /// pending, a session is now active there, the failure streak resets, and
    /// the endpoint is `Ready`.
    pub fn connect_succeeded(&mut self, i: usize)
        requires
            old(self).wf(),
            i < old(self).table.rows@.len(),
            old(self).table.rows@[i as int].pending >= 1,
            old(self).table.rows@[i as int].active < u64::MAX,
            old(self).active_sessions < u64::MAX,
        ensures
            final(self).wf(),
            final(self).table.rows@ == old(self).table.rows@.update(
                i as int,
                EndpointState {
                    pending: (old(self).table.rows@[i as int].pending - 1) as u64,
                    active: (old(self).table.rows@[i as int].active + 1) as u64,
                    consecutive_failures: 0,
                    status: Status::Ready,
                    ..old(self).table.rows@[i as int]
                },
            ),
            final(self).active_sessions == old(self).active_sessions + 1,
            final(self).waiters == old(self).waiters,
            final(self).failure_threshold == old(self).failure_threshold,
            final(self).cooldown == old(self).cooldown,
    {
        let e = self.table.get(i);
        let updated = EndpointState {
            pending: e.pending - 1,
            active: e.active + 1,
            consecutive_failures: 0,
            status: Status::Ready,
            ..e
        };
        proof {
            lemma_sum_active_update(self.table.rows@, i as int, updated);
        }
        let slot = vstd::std_specs::vec::vec_index_mut(&mut self.table.rows, i);
        *slot = updated;
        self.active_sessions = self.active_sessions + 1;
        proof {
            assert forall|p: int, q: int|
                0 <= p < q < self.table.rows@.len() implies self.table.rows@[p].addr
                != self.table.rows@[q].addr by {
                assert(old(self).table.rows@[p].addr != old(self).table.rows@[q].addr);
            }
        }
    }

    /// Records a failed connect on row `i`: the attempt is no longer pending
    /// and the failure streak grows; at `failure_threshold` the endpoint
    /// turns `Failed` as of `now` and stays barred until its cooldown ends.
    pub fn connect_failed(&mut self, i: usize, now: u64)
        requires
            old(self).wf(),
            i < old(self).table.rows@.len(),
            old(self).table.rows@[i as int].pending >= 1,
            old(self).table.rows@[i as int].consecutive_failures < u64::MAX,
        ensures
            final(self).wf(),
            final(self).table.rows@ == old(self).table.rows@.update(
                i as int,
                failed_record(old(self).table.rows@[i as int], old(self).failure_threshold, now),
            ),
            final(self).active_sessions == old(self).active_sessions,
            final(self).waiters == old(self).waiters,
            final(self).failure_threshold == old(self).failure_threshold,
            final(self).cooldown == old(self).cooldown,
    {
        let e = self.table.get(i);
        let failures = e.consecutive_failures + 1;
        let updated = if failures >= self.failure_threshold {
            EndpointState {
                pending: e.pending - 1,
                consecutive_failures: failures,
                status: Status::Failed,
                failed_at: now,
                ..e
            }
        } else {
            EndpointState { pending: e.pending - 1, consecutive_failures: failures, ..e }
        };
        proof {
            lemma_sum_active_update(self.table.rows@, i as int, updated);
        }
        let slot = vstd::std_specs::vec::vec_index_mut(&mut self.table.rows, i);
        *slot = updated;
        proof {
            assert forall|p: int, q: int|
                0 <= p < q < self.table.rows@.len() implies self.table.rows@[p].addr
                != self.table.rows@[q].addr by {
                assert(old(self).table.rows@[p].addr != old(self).table.rows@[q].addr);
            }
        }
    }

    /// Records the end of a forwarding session on row `i`.
    pub fn session_closed(&mut self, i: usize)
        requires
            old(self).wf(),
            i < old(self).table.rows@.len(),
            old(self).table.rows@[i as int].active >= 1,
        ensures
            final(self).wf(),
            final(self).table.rows@ == old(self).table.rows@.update(
                i as int,
                EndpointState {
                    active: (old(self).table.rows@[i as int].active - 1) as u64,
                    ..old(self).table.rows@[i as int]
                },
            ),
            final(self).active_sessions == old(self).active_sessions - 1,
            final(self).waiters == old(self).waiters,
            final(self).failure_threshold == old(self).failure_threshold,
            final(self).cooldown == old(self).cooldown,
    {
        proof {
            lemma_sum_active_at_least(self.table.rows@, i as int);
        }
        let e = self.table.get(i);
        let updated = EndpointState { active: e.active - 1, ..e };
        proof {
            lemma_sum_active_update(self.table.rows@, i as int, updated);
        }
        let slot = vstd::std_specs::vec::vec_index_mut(&mut self.table.rows, i);
        *slot = updated;
        self.active_sessions = self.active_sessions - 1;
        proof {
            assert forall|p: int, q: int|
                0 <= p < q < self.table.rows@.len() implies self.table.rows@[p].addr
                != self.table.rows@[q].addr by {
                assert(old(self).table.rows@[p].addr != old(self).table.rows@[q].addr);
            }
        }
    }

    /// Lets endpoints whose cooldown has elapsed out of `Failed`: each such
    /// row returns to `Unprobed` so the selector may probe it again.
    pub fn tick(&mut self, now: u64)
        requires
            old(self).wf(),
        ensures
            final(self).wf(),
            final(self).table.rows@.len() == old(self).table.rows@.len(),
            forall|i: int|
                0 <= i < old(self).table.rows@.len() ==> final(self).table.rows@[i] == cooled(
                    #[trigger] old(self).table.rows@[i],
                    now,
                    old(self).cooldown,
                ),
            final(self).active_sessions == old(self).active_sessions,
            final(self).waiters == old(self).waiters,
            final(self).failure_threshold == old(self).failure_threshold,
            final(self).cooldown == old(self).cooldown,
    {
        let ghost t0 = self.table.rows@;
        let mut i: usize = 0;
        while i < self.table.rows.len()
            invariant
                old(self).wf(),
                self.waiters == old(self).waiters,
                self.active_sessions == old(self).active_sessions,
                self.failure_threshold == old(self).failure_threshold,
                self.cooldown == old(self).cooldown,
                i <= t0.len(),
                t0 == old(self).table.rows@,
                self.table.rows@.len() == t0.len(),
                forall|j: int| 0 <= j < i ==> self.table.rows@[j] == cooled(
                    #[trigger] t0[j],
                    now,
                    old(self).cooldown,
                ),
                forall|j: int| i <= j < t0.len() ==> self.table.rows@[j] == t0[j],
            decreases t0.len() - i,
        {
            let e = self.table.get(i);
            let is_failed = e.status == Status::Failed;
            if is_failed && now >= e.failed_at && now - e.failed_at >= self.cooldown {
                let updated = EndpointState { status: Status::Unprobed, ..e };
                let slot = vstd::std_specs::vec::vec_index_mut(&mut self.table.rows, i);
                *slot = updated;
            }
            i += 1;
        }
        proof {
            assert forall|p: int, q: int|
                0 <= p < q < self.table.rows@.len() implies self.table.rows@[p].addr
                != self.table.rows@[q].addr by {
                assert(t0[p].addr != t0[q].addr);
            }
            lemma_sum_active_pointwise(t0, self.table.rows@);
        }
    }

    /// Takes the oldest waiter off the queue so its request can be retried,
    /// in arrival order.
    pub fn take_waiter(&mut self) -> (r: Option<u64>)
        requires
            old(self).wf(),
        ensures
            final(self).wf(),
            final(self).table == old(self).table,
            final(self).active_sessions == old(self).active_sessions,
            final(self).failure_threshold == old(self).failure_threshold,
            final(self).cooldown == old(self).cooldown,
            final(self).waiters.max == old(self).waiters.max,
            match r {
                Some(w) => old(self).waiters.items@.len() > 0 && w == old(self).waiters.items@[0]
                    && final(self).waiters.items@ == old(self).waiters.items@.skip(1),
                None => old(self).waiters.items@.len() == 0 && final(self).waiters.items@ == old(
                    self,
                ).waiters.items@,
            },
    {
        self.waiters.dequeue()
    }

    /// Discards the waiter `w` (its downstream closed before an upstream was
    /// found); it no longer counts against the queue bound.
    pub fn cancel_waiter(&mut self, w: u64) -> (r: bool)
        requires
            old(self).wf(),
        ensures
            final(self).wf(),
            final(self).table == old(self).table,
            final(self).active_sessions == old(self).active_sessions,
            !r ==> final(self).waiters.items@ == old(self).waiters.items@ && !old(
                self,
            ).waiters.items@.contains(w),
            r ==> exists|k: int|
                0 <= k < old(self).waiters.items@.len() && old(self).waiters.items@[k] == w
                    && final(self).waiters.items@ == old(self).waiters.items@.remove(k),
    {
        self.waiters.cancel(w)
    }
}

/// Per-address counters are never negative, in any observable table state:
/// they are machine naturals, and every operation that decrements one
/// requires it positive.
pub proof fn lemma_counters_nonnegative(t: Seq<EndpointState>)
    ensures
        forall|i: int|
            0 <= i < t.len() ==> (#[trigger] t[i]).pending >= 0 && t[i].active >= 0,
{
}

/// Row `e` after a failed connect under threshold `th` at instant `now`.
pub open spec fn failed_record(e: EndpointState, th: u64, now: u64) -> EndpointState {
    if e.consecutive_failures + 1 >= th {
        EndpointState {
            pending: (e.pending - 1) as u64,
            consecutive_failures: (e.consecutive_failures + 1) as u64,
            status: Status::Failed,
            failed_at: now,
            ..e
        }
    } else {
        EndpointState {
            pending: (e.pending - 1) as u64,
            consecutive_failures: (e.consecutive_failures + 1) as u64,
            ..e
        }
    }
}

/// Row `e` at instant `now` under cooldown `cd`: out of `Failed` once the
/// cooldown has elapsed, untouched otherwise.
pub open spec fn cooled(e: EndpointState, now: u64, cd: u64) -> EndpointState {
    if e.status == Status::Failed && now >= e.failed_at + cd {
        EndpointState { status: Status::Unprobed, ..e }
    } else {
        e
    }
}

/// Two tables with pointwise equal `active` fields hold equally many
/// sessions.
proof fn lemma_sum_active_pointwise(a: Seq<EndpointState>, b: Seq<EndpointState>)
    requires
        a.len() == b.len(),
        forall|i: int| 0 <= i < a.len() ==> a[i].active == b[i].active,
    ensures
        sum_active(a) == sum_active(b),
    decreases a.len(),
{
    if a.len() > 0 {
        lemma_sum_active_pointwise(a.drop_last(), b.drop_last());
        assert(a[a.len() - 1].active == b[b.len() - 1].active);
    }
}

} // verus!
