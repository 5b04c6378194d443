//! The bounded FIFO queue of connect waiters.
//!
//! A waiter is an accepted downstream connection that could not be handed an
//! upstream at once; it is identified here by a caller-chosen token. The queue
//! never holds more than `max` waiters, and waiters leave it strictly in
//! arrival order (or singly, when their downstream closes first).

use vstd::prelude::*;
use vstd::math::min;

verus! {

/// A bounded FIFO of waiter tokens.
#[derive(Clone, Debug)]
pub struct WaiterQueue {
    pub items: Vec<u64>,
    pub max: usize,
}

impl WaiterQueue {
    /// Well-formedness: the queue never exceeds its bound.
    pub open spec fn wf(self) -> bool {
        self.items@.len() <= self.max
    }

    pub fn new(max: usize) -> (r: WaiterQueue)
        ensures
            r.wf(),
            r.items@ =~= Seq::<u64>::empty(),
            r.max == max,
    {
        WaiterQueue { items: Vec::new(), max }
    }

    pub fn len(&self) -> (r: usize)
        ensures
            r == self.items@.len(),
    {
        self.items.len()
    }

    /// Appends `w` when there is room; rejects it when the queue is full.
    /// Returns whether the waiter was enqueued.
    pub fn enqueue(&mut self, w: u64) -> (r: bool)
        requires
            old(self).wf(),
        ensures
            final(self).wf(),
            final(self).max == old(self).max,
            r == (old(self).items@.len() < old(self).max),
            r ==> final(self).items@ == old(self).items@.push(w),
            !r ==> final(self).items@ == old(self).items@,
    {
        if self.items.len() < self.max {
            self.items.push(w);
            true
        } else {
            false
        }
    }

    /// Removes and returns the oldest waiter, `None` on an empty queue.
    pub fn dequeue(&mut self) -> (r: Option<u64>)
        requires
            old(self).wf(),
        ensures
            final(self).wf(),
            final(self).max == old(self).max,
            match r {
                Some(w) => old(self).items@.len() > 0 && w == old(self).items@[0]
                    && final(self).items@ == old(self).items@.skip(1),
                None => old(self).items@.len() == 0 && final(self).items@ == old(self).items@,
            },
    {
        if self.items.len() == 0 {
            None
        } else {
            let w = self.items.remove(0);
            Some(w)
        }
    }

    /// Discards the waiter `w` wherever it stands (its downstream closed); the
    /// first occurrence is removed, the rest of the queue keeps its order.
    pub fn cancel(&mut self, w: u64) -> (r: bool)
        requires
            old(self).wf(),
        ensures
            final(self).wf(),
            final(self).max == old(self).max,
            !r ==> final(self).items@ == old(self).items@ && !old(self).items@.contains(w),
            r ==> exists|k: int|
                0 <= k < old(self).items@.len() && old(self).items@[k] == w && final(self).items@
                    == old(self).items@.remove(k),
    {
        let mut i: usize = 0;
        while i < self.items.len()
            invariant
                i <= self.items@.len(),
                forall|j: int| 0 <= j < i ==> self.items@[j] != w,
                self.items@ == old(self).items@,
                self.max == old(self).max,
                old(self).wf(),
            decreases self.items@.len() - i,
        {
            if self.items[i] == w {
                self.items.remove(i);
                return true;
            }
            i += 1;
        }
        false
    }

    /// Removes and returns the oldest `k` waiters, fewer when the queue runs
    /// out, in arrival order: the FIFO law, as a contract.
    pub fn drain(&mut self, k: usize) -> (r: Vec<u64>)
        requires
            old(self).wf(),
        ensures
            final(self).wf(),
            final(self).max == old(self).max,
            r@ == old(self).items@.take(min(k as int, old(self).items@.len() as int)),
            final(self).items@ == old(self).items@.skip(
                min(k as int, old(self).items@.len() as int),
            ),
    {
        let mut out: Vec<u64> = Vec::new();
        let mut i: usize = 0;
        while i < k && self.items.len() > 0
            invariant
                old(self).wf(),
                self.max == old(self).max,
                i <= k,
                i <= old(self).items@.len(),
                out@ == old(self).items@.take(i as int),
                self.items@ == old(self).items@.skip(i as int),
                i < k ==> self.items@.len() == old(self).items@.len() - i,
            decreases k - i,
        {
            let w = self.items.remove(0);
            out.push(w);
            proof {
                assert(old(self).items@.take(i as int + 1) =~= old(self).items@.take(
                    i as int,
                ).push(w));
                assert(old(self).items@.skip(i as int).skip(1) =~= old(self).items@.skip(
                    i as int + 1,
                ));
            }
            i += 1;
        }
        out
    }
}

/// First-in, first-out: among the waiters drained together, one that arrived
/// earlier stands earlier in the drained sequence, and an earlier waiter is
/// never still queued once a later one has been served.
pub proof fn lemma_waiter_fifo(items: Seq<u64>, n: int, k1: int, k2: int)
    requires
        0 <= k1 < k2 < items.len(),
        0 <= n <= items.len(),
    ensures
        k2 < n ==> k1 < n,
        k2 < n ==> items.take(n)[k1] == items[k1] && items.take(n)[k2] == items[k2],
{
}

} // verus!
