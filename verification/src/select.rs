//! Weighted random selection over the endpoint table.
//!
//! A candidate is a row that is not tombstoned and whose status is `Unprobed`
//! or `Ready` (and, during the single in-session retry, whose address is not
//! the one that just failed). A draw is a number below the candidates' total
//! weight; the chosen row is the one whose cumulative weight window contains
//! the draw, walking rows in table order. A candidate of weight `w` therefore
//! owns exactly `w` of the draw values: the normalized weights are the exact
//! selection distribution over a uniform draw.

use vstd::prelude::*;
use vstd::pervasive::unreached;
use crate::Addr;
use crate::endpoint::EndpointState;
use crate::endpoint::Status;
use crate::endpoint::Table;

verus! {

/// Whether row `e` may be selected when `exclude` is barred.
pub open spec fn selectable(e: EndpointState, exclude: Option<Addr>) -> bool {
    &&& !e.tombstoned
    &&& (e.status == Status::Unprobed || e.status == Status::Ready)
    &&& exclude != Some(e.addr)
}

/// The total weight of the selectable rows of `t`.
pub open spec fn sel_weight(t: Seq<EndpointState>, exclude: Option<Addr>) -> int
    decreases t.len(),
{
    if t.len() == 0 {
        0
    } else {
        sel_weight(t.drop_last(), exclude) + (if selectable(t.last(), exclude) {
            t.last().weight as int
        } else {
            0
        })
    }
}

/// The selectable weight of a prefix never exceeds that of the whole.
pub proof fn lemma_sel_weight_monotone(t: Seq<EndpointState>, exclude: Option<Addr>, n: int)
    requires
        0 <= n <= t.len(),
    ensures
        sel_weight(t.take(n), exclude) <= sel_weight(t, exclude),
        sel_weight(t, exclude) >= 0,
    decreases t.len(),
{
    if t.len() == 0 {
    } else if n == t.len() {
        assert(t.take(n) =~= t);
        lemma_sel_weight_monotone(t.drop_last(), exclude, t.len() - 1);
    } else {
        assert(t.take(n) =~= t.drop_last().take(n));
        lemma_sel_weight_monotone(t.drop_last(), exclude, n);
    }
}

/// The selectable weight never exceeds the row count times the largest
/// representable weight.
pub proof fn lemma_sel_weight_bound(t: Seq<EndpointState>, exclude: Option<Addr>)
    ensures
        sel_weight(t, exclude) <= t.len() * 0xffff_ffff,
    decreases t.len(),
{
    if t.len() == 0 {
    } else {
        lemma_sel_weight_bound(t.drop_last(), exclude);
        assert((t.len() - 1) * 0xffff_ffff + 0xffff_ffff == t.len() * 0xffff_ffff) by (nonlinear_arith);
    }
}

/// No two distinct rows own the same draw value: the cumulative windows are
/// disjoint, so each candidate is chosen by exactly as many draw values as its
/// weight.
pub proof fn lemma_windows_disjoint(
    t: Seq<EndpointState>,
    exclude: Option<Addr>,
    x: int,
    i: int,
    j: int,
)
    requires
        0 <= i < t.len(),
        0 <= j < t.len(),
        sel_weight(t.take(i), exclude) <= x < sel_weight(t.take(i), exclude) + t[i].weight,
        sel_weight(t.take(j), exclude) <= x < sel_weight(t.take(j), exclude) + t[j].weight,
        selectable(t[i], exclude),
        selectable(t[j], exclude),
    ensures
        i == j,
{
    if i < j {
        lemma_window_order(t, exclude, i, j);
    } else if j < i {
        lemma_window_order(t, exclude, j, i);
    }
}

/// For `i < j`, row `i`'s window ends no later than row `j`'s begins.
proof fn lemma_window_order(t: Seq<EndpointState>, exclude: Option<Addr>, i: int, j: int)
    requires
        0 <= i < j < t.len(),
        selectable(t[i], exclude),
    ensures
        sel_weight(t.take(i), exclude) + t[i].weight <= sel_weight(t.take(j), exclude),
    decreases j,
{
    if j == i + 1 {
        assert(t.take(j).drop_last() =~= t.take(i));
        assert(t.take(j).last() == t[i]);
    } else {
        lemma_window_order(t, exclude, i, j - 1);
        assert(t.take(j).drop_last() =~= t.take(j - 1));
        assert(t.take(j).last() == t[j - 1]);
        lemma_sel_weight_monotone(t.take(j), exclude, j - 1);
        assert(t.take(j).take(j - 1) =~= t.take(j - 1));
    }
}

impl Table {
    /// The total weight of the selectable rows, `exclude` barred.
    pub fn total_weight(&self, exclude: Option<Addr>) -> (r: u128)
        ensures
            r == sel_weight(self.rows@, exclude),
    {
        let n = self.rows.len();
        proof {
            lemma_sel_weight_bound(self.rows@, exclude);
            assert(self.rows@.len() * 0xffff_ffff < 0xffff_ffff_ffff_ffff_ffff_ffff_ffff_ffff)
                by (nonlinear_arith)
                requires
                    self.rows@.len() == n && n <= 0xffff_ffff_ffff_ffffu64,
            ;
        }
        let mut acc: u128 = 0;
        let mut i: usize = 0;
        while i < self.rows.len()
            invariant
                i <= self.rows@.len(),
                acc == sel_weight(self.rows@.take(i as int), exclude),
                sel_weight(self.rows@, exclude) <= self.rows@.len() * 0xffff_ffff,
                self.rows@.len() * 0xffff_ffff < 0xffff_ffff_ffff_ffff_ffff_ffff_ffff_ffff,
            decreases self.rows@.len() - i,
        {
            let e = self.rows[i];
            let take = !e.tombstoned && (e.status == Status::Unprobed || e.status
                == Status::Ready) && (match exclude {
                Some(a) => e.addr != a,
                None => true,
            });
            proof {
                assert(self.rows@.take(i as int + 1).drop_last() =~= self.rows@.take(i as int));
                assert(self.rows@.take(i as int + 1).last() == e);
                assert(take == selectable(e, exclude));
                lemma_sel_weight_monotone(self.rows@, exclude, i as int + 1);
            }
            if take {
                proof {
                    lemma_sel_weight_monotone(self.rows@.take(i as int + 1), exclude, i as int);
                }
                acc = acc + e.weight as u128;
            }
            i += 1;
        }
        proof {
            assert(self.rows@.take(self.rows@.len() as int) =~= self.rows@);
        }
        acc
    }

    /// The row whose cumulative weight window contains the draw `x`.
    pub fn pick_weighted(&self, exclude: Option<Addr>, x: u128) -> (r: usize)
        requires
            (x as int) < sel_weight(self.rows@, exclude),
        ensures
            r < self.rows@.len(),
            selectable(self.rows@[r as int], exclude),
            sel_weight(self.rows@.take(r as int), exclude) <= x as int,
            (x as int) < sel_weight(self.rows@.take(r as int), exclude) + self.rows@[
                r as int
            ].weight,
    {
        let mut acc: u128 = 0;
        let mut i: usize = 0;
        while i < self.rows.len()
            invariant
                i <= self.rows@.len(),
                acc == sel_weight(self.rows@.take(i as int), exclude),
                acc <= x as int,
                (x as int) < sel_weight(self.rows@, exclude),
            decreases self.rows@.len() - i,
        {
            let e = self.rows[i];
            let take = !e.tombstoned && (e.status == Status::Unprobed || e.status
                == Status::Ready) && (match exclude {
                Some(a) => e.addr != a,
                None => true,
            });
            proof {
                assert(self.rows@.take(i as int + 1).drop_last() =~= self.rows@.take(i as int));
                assert(self.rows@.take(i as int + 1).last() == e);
                assert(take == selectable(e, exclude));
            }
            if take {
                let w = e.weight as u128;
                if x - acc < w {
                    return i;
                }
                acc = acc + w;
            }
            i += 1;
        }
        proof {
            assert(self.rows@.take(self.rows@.len() as int) =~= self.rows@);
        }
        unreached()
    }

    /// Draws a random value below the candidates' total weight and picks the
    /// row whose window contains it. `None` exactly when the selectable
    /// weight is zero (no candidate, or only weightless ones).
    pub fn select(&self, exclude: Option<Addr>) -> (r: Option<usize>)
        ensures
            match r {
                Some(i) => i < self.rows@.len() && selectable(self.rows@[i as int], exclude)
                    && self.rows@[i as int].weight > 0,
                None => sel_weight(self.rows@, exclude) == 0,
            },
    {
        proof {
            lemma_sel_weight_monotone(self.rows@, exclude, 0);
        }
        let total = self.total_weight(exclude);
        if total == 0 {
            return None;
        }
        let bound: u64 = if total > 0xffff_ffff_ffff_ffffu128 {
            0xffff_ffff_ffff_ffffu64
        } else {
            total as u64
        };
        let x = draw_below(bound);
        Some(self.pick_weighted(exclude, x as u128))
    }
}

/// A `Failed` endpoint is never selectable, whatever else holds of it: no
/// connect attempt reaches it until its cooldown has let it out of `Failed`.
pub proof fn lemma_failed_not_selectable(e: EndpointState, exclude: Option<Addr>)
    ensures
        e.status == Status::Failed ==> !selectable(e, exclude),
        e.tombstoned ==> !selectable(e, exclude),
{
}

/// Relies on `rand::random_range` over the integer range `0..n`: the result is
/// uniform in that range, hence strictly below `n`. The range must be
/// non-empty, as `random_range` panics on an empty range.
#[verifier::external_body]
fn draw_below(n: u64) -> (r: u64)
    requires
        n > 0,
    ensures
        r < n,
{
    rand::random_range(0..n)
}

} // verus!
