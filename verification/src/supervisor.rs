//! The supervisor's scheduling decision.
//!
//! A supervisor drives a list of child activities (acceptors, the balancer
//! driver, the resolver driver). Each turn, the runtime polls every child in
//! order and reports the results here; this step decides what follows: the
//! first child error terminates the supervisor with that child named, an
//! empty remainder means the supervisor itself is done, and otherwise the
//! still-pending children continue, in order.

use vstd::prelude::*;

verus! {

/// What polling one child produced.
#[derive(Clone, Copy, PartialEq, Eq, Structural, Debug)]
pub enum ChildPoll {
    /// The child completed.
    Done,
    /// The child is idle until woken.
    Pending,
    /// The child failed.
    Error,
}

/// The supervisor's decision for one turn.
#[derive(Clone, PartialEq, Eq, Debug)]
pub enum StepOutcome {
    /// The child at this index failed: the supervisor terminates with its
    /// error.
    Failed(usize),
    /// Every child has completed: the supervisor completes.
    AllDone,
    /// These children (by index, in order) are still pending.
    StillRunning(Vec<usize>),
}

/// The indices of the still-pending children, in order.
pub open spec fn pending_indices(s: Seq<ChildPoll>) -> Seq<int>
    decreases s.len(),
{
    if s.len() == 0 {
        Seq::empty()
    } else {
        pending_indices(s.drop_last()) + (if s.last() is Pending {
            seq![s.len() - 1]
        } else {
            Seq::<int>::empty()
        })
    }
}

/// Whether any child failed.
pub open spec fn has_error(s: Seq<ChildPoll>) -> bool {
    exists|i: int| 0 <= i < s.len() && s[i] is Error
}

/// Decides one supervisor turn from the children's poll results.
pub fn supervisor_step(polls: &Vec<ChildPoll>) -> (r: StepOutcome)
    ensures
        match r {
            StepOutcome::Failed(k) => {
                &&& k < polls@.len()
                &&& polls@[k as int] is Error
                &&& forall|j: int| 0 <= j < k ==> !((#[trigger] polls@[j]) is Error)
            },
            StepOutcome::AllDone => !has_error(polls@) && pending_indices(polls@).len() == 0,
            StepOutcome::StillRunning(v) => {
                &&& !has_error(polls@)
                &&& v@.len() == pending_indices(polls@).len()
                &&& v@.len() > 0
                &&& forall|j: int| 0 <= j < v@.len() ==> v@[j] == pending_indices(polls@)[j]
            },
        },
{
    let mut i: usize = 0;
    let mut still: Vec<usize> = Vec::new();
    while i < polls.len()
        invariant
            i <= polls@.len(),
            forall|j: int| 0 <= j < i ==> !((#[trigger] polls@[j]) is Error),
            still@.len() == pending_indices(polls@.take(i as int)).len(),
            forall|j: int|
                0 <= j < still@.len() ==> still@[j] == pending_indices(polls@.take(i as int))[j],
        decreases polls@.len() - i,
    {
        let ghost prefix = polls@.take(i as int);
        match polls[i] {
            ChildPoll::Error => {
                return StepOutcome::Failed(i);
            },
            ChildPoll::Pending => {
                still.push(i);
            },
            ChildPoll::Done => {},
        }
        proof {
            assert(polls@.take(i as int + 1).drop_last() =~= prefix);
            assert(polls@.take(i as int + 1).last() == polls@[i as int]);
        }
        i += 1;
    }
    proof {
        assert(polls@.take(polls@.len() as int) =~= polls@);
        if has_error(polls@) {
            let k = choose|k: int| 0 <= k < polls@.len() && polls@[k] is Error;
            assert(!(polls@[k] is Error));
        }
    }
    if still.len() == 0 {
        StepOutcome::AllDone
    } else {
        StepOutcome::StillRunning(still)
    }
}

} // verus!
