//! The per-address endpoint state table and its reconciliation against
//! resolver updates.
//!
//! The table holds one record per upstream address. Reconciliation applies a
//! weighted address set: addresses present in the update are inserted or have
//! their weight refreshed, addresses absent from the update are removed once
//! drained (`pending + active == 0`) and tombstoned otherwise.

use vstd::prelude::*;
use vstd::pervasive::unreached;
use crate::Addr;
use crate::WeightedAddr;

verus! {

/// Liveness of one endpoint.
#[derive(Clone, Copy, PartialEq, Eq, Structural, Debug)]
pub enum Status {
    Unprobed,
    Ready,
    Failed,
}

/// One record of the balancer's endpoint table.
#[derive(Clone, Copy, PartialEq, Eq, Structural, Debug)]
pub struct EndpointState {
    /// The address, immutable key of the record.
    pub addr: Addr,
    /// Weight in thousandths from the latest update that named the address.
    pub weight: u32,
    /// In-flight connect attempts to this address.
    pub pending: u64,
    /// Established forwarding sessions bound to this address.
    pub active: u64,
    /// Connect failures since the last success.
    pub consecutive_failures: u64,
    /// Liveness state.
    pub status: Status,
    /// True when the address was absent from the latest update but is still
    /// draining; a tombstoned record is never selected.
    pub tombstoned: bool,
    /// The instant (caller's clock) of the failure that set `status` to
    /// `Failed`; meaningful only in that state.
    pub failed_at: u64,
}

/// A fresh record for an address first seen in an update.
pub open spec fn new_record(wa: WeightedAddr) -> EndpointState {
    EndpointState {
        addr: wa.addr,
        weight: wa.weight,
        pending: 0,
        active: 0,
        consecutive_failures: 0,
        status: Status::Unprobed,
        tombstoned: false,
        failed_at: 0,
    }
}

/// A record refreshed by an update that names its address.
pub open spec fn refreshed(e: EndpointState, w: u32) -> EndpointState {
    EndpointState { weight: w, tombstoned: false, ..e }
}

/// A record whose address the latest update dropped while sessions drain.
pub open spec fn tombstoned(e: EndpointState) -> EndpointState {
    EndpointState { tombstoned: true, ..e }
}

/// Whether the weighted set `s` names address `a`.
pub open spec fn wa_contains(s: Seq<WeightedAddr>, a: Addr) -> bool {
    exists|i: int| 0 <= i < s.len() && s[i].addr == a
}

/// The index of `a` in `s` (meaningful when `s` names `a` uniquely).
pub open spec fn wa_index(s: Seq<WeightedAddr>, a: Addr) -> int {
    choose|i: int| 0 <= i < s.len() && s[i].addr == a
}

/// The weight `s` gives to `a` (meaningful when `s` names `a` uniquely).
pub open spec fn wa_weight(s: Seq<WeightedAddr>, a: Addr) -> u32 {
    s[wa_index(s, a)].weight
}

/// Each address occurs at most once in `s`.
pub open spec fn wa_unique(s: Seq<WeightedAddr>) -> bool {
    forall|i: int, j: int| 0 <= i < j < s.len() ==> s[i].addr != s[j].addr
}

/// Whether the table rows `t` hold a record for `a`.
pub open spec fn ep_contains(t: Seq<EndpointState>, a: Addr) -> bool {
    exists|i: int| 0 <= i < t.len() && t[i].addr == a
}

/// The index of the record for `a` (meaningful when the table is well formed).
pub open spec fn ep_index(t: Seq<EndpointState>, a: Addr) -> int {
    choose|i: int| 0 <= i < t.len() && t[i].addr == a
}

/// Each address occurs at most once among the rows `t`.
pub open spec fn ep_unique(t: Seq<EndpointState>) -> bool {
    forall|i: int, j: int| 0 <= i < j < t.len() ==> t[i].addr != t[j].addr
}

/// What reconciliation keeps of one existing record under update `s`.
pub open spec fn keep_one(e: EndpointState, s: Seq<WeightedAddr>) -> Seq<EndpointState> {
    if wa_contains(s, e.addr) {
        seq![refreshed(e, wa_weight(s, e.addr))]
    } else if e.pending + e.active > 0 {
        seq![tombstoned(e)]
    } else {
        Seq::empty()
    }
}

/// The retained rows of table `t` under update `s`, in table order.
pub open spec fn spec_keep(t: Seq<EndpointState>, s: Seq<WeightedAddr>) -> Seq<EndpointState>
    decreases t.len(),
{
    if t.len() == 0 {
        Seq::empty()
    } else {
        spec_keep(t.drop_last(), s) + keep_one(t.last(), s)
    }
}

/// The rows inserted for addresses of `s` that `t` does not hold, in `s` order.
pub open spec fn spec_added(t: Seq<EndpointState>, s: Seq<WeightedAddr>) -> Seq<EndpointState>
    decreases s.len(),
{
    if s.len() == 0 {
        Seq::empty()
    } else {
        spec_added(t, s.drop_last()) + (if ep_contains(t, s.last().addr) {
            Seq::<EndpointState>::empty()
        } else {
            seq![new_record(s.last())]
        })
    }
}

/// The table after applying update `s` to rows `t`.
pub open spec fn spec_reconcile(t: Seq<EndpointState>, s: Seq<WeightedAddr>) -> Seq<
    EndpointState,
> {
    spec_keep(t, s) + spec_added(t, s)
}

/// The balancer's endpoint table: rows in insertion order, unique by address.
#[derive(Clone, Debug)]
pub struct Table {
    pub rows: Vec<EndpointState>,
}

impl Table {
    /// Well-formedness: no two rows share an address.
    pub open spec fn wf(self) -> bool {
        ep_unique(self.rows@)
    }

    pub fn new() -> (r: Table)
        ensures
            r.wf(),
            r.rows@ =~= Seq::<EndpointState>::empty(),
    {
        Table { rows: Vec::new() }
    }

    /// The number of rows.
    pub fn len(&self) -> (r: usize)
        ensures
            r == self.rows@.len(),
    {
        self.rows.len()
    }

    /// The row at `i`.
    pub fn get(&self, i: usize) -> (r: EndpointState)
        requires
            i < self.rows@.len(),
        ensures
            r == self.rows@[i as int],
    {
        self.rows[i]
    }

    /// The index of the row for `a`, if the table holds one.
    pub fn find(&self, a: Addr) -> (r: Option<usize>)
        ensures
            match r {
                Some(i) => i < self.rows@.len() && self.rows@[i as int].addr == a,
                None => !ep_contains(self.rows@, a),
            },
    {
        let mut i: usize = 0;
        while i < self.rows.len()
            invariant
                i <= self.rows@.len(),
                forall|j: int| 0 <= j < i ==> self.rows@[j].addr != a,
            decreases self.rows@.len() - i,
        {
            if self.rows[i].addr == a {
                return Some(i);
            }
            i += 1;
        }
        None
    }

    /// Applies update `s`: refreshes weights of named addresses, drops drained
    /// unnamed rows, tombstones draining unnamed rows, and appends a fresh
    /// `Unprobed` row for each newly named address, in update order.
    pub fn reconcile(&mut self, s: &Vec<WeightedAddr>)
        requires
            old(self).wf(),
            wa_unique(s@),
        ensures
            final(self).rows@ == spec_reconcile(old(self).rows@, s@),
            final(self).wf(),
    {
        let ghost t0 = self.rows@;
        let mut out: Vec<EndpointState> = Vec::new();
        let mut i: usize = 0;
        while i < self.rows.len()
            invariant
                self.rows@ == t0,
                wa_unique(s@),
                i <= t0.len(),
                out@ == spec_keep(t0.take(i as int), s@),
            decreases t0.len() - i,
        {
            let ghost prefix = t0.take(i as int);
            let e = self.rows[i];
            let named = contains_addr(s, e.addr);
            if named {
                let w = weight_of(s, e.addr);
                out.push(EndpointState { weight: w, tombstoned: false, ..e });
            } else if e.pending > 0 || e.active > 0 {
                out.push(EndpointState { tombstoned: true, ..e });
            }
            proof {
                assert(t0.take(i as int + 1).drop_last() =~= prefix);
                assert(t0.take(i as int + 1).last() == e);
                assert(out@ =~= spec_keep(prefix, s@) + keep_one(e, s@));
            }
            i += 1;
        }
        proof {
            assert(t0.take(t0.len() as int) =~= t0);
        }
        let ghost kept = out@;
        let mut j: usize = 0;
        while j < s.len()
            invariant
                self.rows@ == t0,
                j <= s@.len(),
                out@ == kept + spec_added(t0, s@.take(j as int)),
                kept == spec_keep(t0, s@),
            decreases s@.len() - j,
        {
            let ghost sprefix = s@.take(j as int);
            let wa = s[j];
            match self.find(wa.addr) {
                Some(_) => {},
                None => {
                    out.push(
                        EndpointState {
                            addr: wa.addr,
                            weight: wa.weight,
                            pending: 0,
                            active: 0,
                            consecutive_failures: 0,
                            status: Status::Unprobed,
                            tombstoned: false,
                            failed_at: 0,
                        },
                    );
                },
            }
            proof {
                assert(s@.take(j as int + 1).drop_last() =~= sprefix);
                assert(s@.take(j as int + 1).last() == wa);
                assert(out@ =~= kept + spec_added(t0, s@.take(j as int + 1)));
            }
            j += 1;
        }
        proof {
            assert(s@.take(s@.len() as int) =~= s@);
        }
        self.rows = out;
        proof {
            lemma_reconcile_wf(t0, s@);
        }
    }
}

/// Whether `s` holds an entry for `a` (executable form of `wa_contains`).
pub fn contains_addr(s: &Vec<WeightedAddr>, a: Addr) -> (r: bool)
    ensures
        r == wa_contains(s@, a),
{
    let mut i: usize = 0;
    while i < s.len()
        invariant
            i <= s@.len(),
            forall|j: int| 0 <= j < i ==> s@[j].addr != a,
        decreases s@.len() - i,
    {
        if s[i].addr == a {
            return true;
        }
        i += 1;
    }
    false
}

/// The weight `s` gives to `a` (executable form of `wa_weight`).
pub fn weight_of(s: &Vec<WeightedAddr>, a: Addr) -> (r: u32)
    requires
        wa_unique(s@),
        wa_contains(s@, a),
    ensures
        r == wa_weight(s@, a),
{
    let mut i: usize = 0;
    while i < s.len()
        invariant
            i <= s@.len(),
            forall|j: int| 0 <= j < i ==> s@[j].addr != a,
            wa_unique(s@),
            wa_contains(s@, a),
        decreases s@.len() - i,
    {
        if s[i].addr == a {
            proof {
                let k = wa_index(s@, a);
                assert(0 <= k < s@.len() && s@[k].addr == a);
                assert(k == i);
            }
            return s[i].weight;
        }
        i += 1;
    }
    proof {
        let k = wa_index(s@, a);
        assert(0 <= k < s@.len() && s@[k].addr == a);
    }
    unreached()
}

/// Every address of a kept row is an address of the table before the update.
pub proof fn lemma_keep_addrs(t: Seq<EndpointState>, s: Seq<WeightedAddr>)
    ensures
        forall|i: int|
            0 <= i < spec_keep(t, s).len() ==> ep_contains(t, #[trigger] spec_keep(t, s)[i].addr),
        ep_unique(t) ==> ep_unique(spec_keep(t, s)),
    decreases t.len(),
{
    if t.len() == 0 {
    } else {
        lemma_keep_addrs(t.drop_last(), s);
        assert forall|i: int| 0 <= i < spec_keep(t, s).len() implies ep_contains(
            t,
            #[trigger] spec_keep(t, s)[i].addr,
        ) by {
            let pre = spec_keep(t.drop_last(), s);
            if i < pre.len() {
                assert(ep_contains(t.drop_last(), pre[i].addr));
                let k = ep_index(t.drop_last(), pre[i].addr);
                assert(t[k].addr == pre[i].addr);
            } else {
                assert(spec_keep(t, s)[i].addr == t.last().addr);
                assert(t[t.len() - 1].addr == t.last().addr);
            }
        }
        if ep_unique(t) {
            assert(ep_unique(t.drop_last()));
            assert forall|i: int, j: int|
                0 <= i < j < spec_keep(t, s).len() implies spec_keep(t, s)[i].addr != spec_keep(
                t,
                s,
            )[j].addr by {
                let pre = spec_keep(t.drop_last(), s);
                if j < pre.len() {
                } else {
                    // the last element (if kept) has the address of t.last(),
                    // which no earlier row shares
                    assert(spec_keep(t, s)[j].addr == t.last().addr);
                    if i < pre.len() {
                        assert(ep_contains(t.drop_last(), pre[i].addr));
                        let k = ep_index(t.drop_last(), pre[i].addr);
                        assert(t[k].addr == pre[i].addr);
                        assert(t[k].addr != t[t.len() - 1].addr);
                    }
                }
            }
        }
    }
}

/// Every inserted row's address is named by `s` and absent from `t`; under a
/// unique update the inserted rows are unique.
pub proof fn lemma_added_addrs(t: Seq<EndpointState>, s: Seq<WeightedAddr>)
    ensures
        forall|i: int|
            0 <= i < spec_added(t, s).len() ==> wa_contains(
                s,
                #[trigger] spec_added(t, s)[i].addr,
            ) && !ep_contains(t, spec_added(t, s)[i].addr),
        wa_unique(s) ==> ep_unique(spec_added(t, s)),
    decreases s.len(),
{
    if s.len() == 0 {
    } else {
        lemma_added_addrs(t, s.drop_last());
        assert forall|i: int| 0 <= i < spec_added(t, s).len() implies wa_contains(
            s,
            #[trigger] spec_added(t, s)[i].addr,
        ) && !ep_contains(t, spec_added(t, s)[i].addr) by {
            let pre = spec_added(t, s.drop_last());
            if i < pre.len() {
                assert(wa_contains(s.drop_last(), pre[i].addr));
                let k = wa_index(s.drop_last(), pre[i].addr);
                assert(s[k].addr == pre[i].addr);
            } else {
                assert(spec_added(t, s)[i] == new_record(s.last()));
                assert(s[s.len() - 1].addr == s.last().addr);
            }
        }
        if wa_unique(s) {
            assert(wa_unique(s.drop_last()));
            assert forall|i: int, j: int|
                0 <= i < j < spec_added(t, s).len() implies spec_added(t, s)[i].addr
                != spec_added(t, s)[j].addr by {
                let pre = spec_added(t, s.drop_last());
                if j < pre.len() {
                } else {
                    assert(spec_added(t, s)[j].addr == s.last().addr);
                    if i < pre.len() {
                        assert(wa_contains(s.drop_last(), pre[i].addr));
                        let k = wa_index(s.drop_last(), pre[i].addr);
                        assert(s[k].addr == pre[i].addr);
                        assert(s[k].addr != s[s.len() - 1].addr);
                    }
                }
            }
        }
    }
}

/// The weighted set `s` with duplicate addresses folded away: first-occurrence
/// order, last-writer wins on weight.
pub open spec fn spec_dedup(s: Seq<WeightedAddr>) -> Seq<WeightedAddr>
    decreases s.len(),
{
    if s.len() == 0 {
        Seq::empty()
    } else {
        let pre = spec_dedup(s.drop_last());
        if wa_contains(pre, s.last().addr) {
            pre.update(wa_index(pre, s.last().addr), s.last())
        } else {
            pre.push(s.last())
        }
    }
}

/// Folding duplicates keeps exactly the addresses of the input, each once.
pub proof fn lemma_dedup_wf(s: Seq<WeightedAddr>)
    ensures
        wa_unique(spec_dedup(s)),
        forall|a: Addr| wa_contains(spec_dedup(s), a) <==> wa_contains(s, a),
    decreases s.len(),
{
    if s.len() == 0 {
        assert forall|a: Addr| wa_contains(spec_dedup(s), a) <==> wa_contains(s, a) by {}
    } else {
        lemma_dedup_wf(s.drop_last());
        let pre = spec_dedup(s.drop_last());
        let d = spec_dedup(s);
        let wa = s.last();
        assert forall|a: Addr| wa_contains(d, a) <==> wa_contains(s, a) by {
            if wa_contains(pre, wa.addr) {
                let k = wa_index(pre, wa.addr);
                if wa_contains(d, a) {
                    let i = wa_index(d, a);
                    assert(d[i].addr == a);
                    if i == k {
                        assert(s[s.len() - 1].addr == a);
                    } else {
                        assert(pre[i].addr == a);
                        lemma_contains_lift(s, a);
                    }
                }
                if wa_contains(s, a) {
                    let i = wa_index(s, a);
                    if i == s.len() - 1 {
                        assert(d[k].addr == a);
                    } else {
                        assert(wa_contains(s.drop_last(), a)) by {
                            assert(s.drop_last()[i].addr == a);
                        }
                        assert(wa_contains(pre, a));
                        let j = wa_index(pre, a);
                        if j == k {
                            assert(d[k].addr == wa.addr);
                            assert(pre[k].addr == a);
                            assert(d[k].addr == a);
                        } else {
                            assert(d[j].addr == a);
                        }
                    }
                }
            } else {
                if wa_contains(d, a) {
                    let i = wa_index(d, a);
                    assert(d[i].addr == a);
                    if i == d.len() - 1 {
                        assert(s[s.len() - 1].addr == a);
                    } else {
                        assert(pre[i].addr == a);
                        lemma_contains_lift(s, a);
                    }
                }
                if wa_contains(s, a) {
                    let i = wa_index(s, a);
                    if i == s.len() - 1 {
                        assert(d[d.len() - 1].addr == a);
                    } else {
                        assert(wa_contains(s.drop_last(), a)) by {
                            assert(s.drop_last()[i].addr == a);
                        }
                        assert(wa_contains(pre, a));
                        let j = wa_index(pre, a);
                        assert(d[j].addr == a);
                    }
                }
            }
        }
        assert forall|i: int, j: int| 0 <= i < j < d.len() implies d[i].addr != d[j].addr by {
            if wa_contains(pre, wa.addr) {
                let k = wa_index(pre, wa.addr);
                if i != k && j != k {
                    assert(d[i] == pre[i] && d[j] == pre[j]);
                } else if i == k {
                    assert(d[i].addr == wa.addr && pre[k].addr == wa.addr);
                    assert(d[j] == pre[j]);
                } else {
                    assert(d[j].addr == wa.addr && pre[k].addr == wa.addr);
                    assert(d[i] == pre[i]);
                }
            } else {
                if j == d.len() - 1 {
                    assert(d[i] == pre[i]);
                    assert(d[j].addr == wa.addr);
                    if wa_contains(pre, wa.addr) {
                    } else {
                        assert(pre[i].addr != wa.addr);
                    }
                } else {
                    assert(d[i] == pre[i] && d[j] == pre[j]);
                }
            }
        }
    }
}

/// An address found in all but the last entry is found in the whole.
proof fn lemma_contains_lift(s: Seq<WeightedAddr>, a: Addr)
    requires
        s.len() > 0,
        wa_contains(s.drop_last(), a),
    ensures
        wa_contains(s, a),
{
    let i = wa_index(s.drop_last(), a);
    assert(s[i].addr == a);
}

/// Folds duplicate addresses of `v` away: first-occurrence order, last-writer
/// wins on weight.
pub fn dedup(v: &Vec<WeightedAddr>) -> (r: Vec<WeightedAddr>)
    ensures
        r@ == spec_dedup(v@),
        wa_unique(r@),
{
    let mut out: Vec<WeightedAddr> = Vec::new();
    let mut i: usize = 0;
    while i < v.len()
        invariant
            i <= v@.len(),
            out@ == spec_dedup(v@.take(i as int)),
            wa_unique(out@),
        decreases v@.len() - i,
    {
        let ghost prefix = v@.take(i as int);
        let wa = v[i];
        let mut j: usize = 0;
        let mut found: bool = false;
        while j < out.len() && !found
            invariant
                j <= out@.len(),
                !found ==> forall|k: int| 0 <= k < j ==> out@[k].addr != wa.addr,
                found ==> j < out@.len() && out@[j as int].addr == wa.addr,
                wa_unique(out@),
            decreases out@.len() - j + (if found {
                0int
            } else {
                1int
            }),
        {
            if out[j].addr == wa.addr {
                found = true;
            } else {
                j += 1;
            }
        }
        proof {
            assert(v@.take(i as int + 1).drop_last() =~= prefix);
            assert(v@.take(i as int + 1).last() == wa);
        }
        if found {
            proof {
                let k = wa_index(out@, wa.addr);
                assert(0 <= k < out@.len() && out@[k].addr == wa.addr);
                assert(k == j);
            }
            let slot = vstd::std_specs::vec::vec_index_mut(&mut out, j);
            *slot = wa;
        } else {
            proof {
                if wa_contains(out@, wa.addr) {
                    let k = wa_index(out@, wa.addr);
                    assert(out@[k].addr == wa.addr);
                }
            }
            out.push(wa);
        }
        proof {
            lemma_dedup_wf(v@.take(i as int + 1));
        }
        i += 1;
    }
    proof {
        assert(v@.take(v@.len() as int) =~= v@);
    }
    out
}

/// In a unique weighted set, the weight looked up for the address at `j` is
/// the weight stored at `j`.
pub proof fn lemma_wa_weight_at(s: Seq<WeightedAddr>, j: int)
    requires
        wa_unique(s),
        0 <= j < s.len(),
    ensures
        wa_weight(s, s[j].addr) == s[j].weight,
{
    let k = wa_index(s, s[j].addr);
    assert(0 <= k < s.len() && s[k].addr == s[j].addr);
    assert(k == j);
}

/// Every row the reconciled table would keep satisfies the reconciliation
/// rule: a named address is refreshed (weight from `s`, not tombstoned), an
/// unnamed one is tombstoned and still draining.
pub proof fn lemma_keep_props(t: Seq<EndpointState>, s: Seq<WeightedAddr>)
    ensures
        forall|i: int|
            0 <= i < spec_keep(t, s).len() ==> {
                let r = #[trigger] spec_keep(t, s)[i];
                &&& (wa_contains(s, r.addr) ==> !r.tombstoned && r.weight == wa_weight(s, r.addr))
                &&& (!wa_contains(s, r.addr) ==> r.tombstoned && r.pending + r.active > 0)
            },
    decreases t.len(),
{
    if t.len() == 0 {
    } else {
        lemma_keep_props(t.drop_last(), s);
        assert forall|i: int| 0 <= i < spec_keep(t, s).len() implies {
            let r = #[trigger] spec_keep(t, s)[i];
            &&& (wa_contains(s, r.addr) ==> !r.tombstoned && r.weight == wa_weight(s, r.addr))
            &&& (!wa_contains(s, r.addr) ==> r.tombstoned && r.pending + r.active > 0)
        } by {
            let pre = spec_keep(t.drop_last(), s);
            if i < pre.len() {
                assert(spec_keep(t, s)[i] == pre[i]);
            } else {
                assert(spec_keep(t, s)[i] == keep_one(t.last(), s)[i - pre.len()]);
            }
        }
    }
}

/// Every row inserted by reconciliation carries the weight the update gives
/// its address and is not tombstoned.
pub proof fn lemma_added_props(t: Seq<EndpointState>, s: Seq<WeightedAddr>)
    requires
        wa_unique(s),
    ensures
        forall|i: int|
            0 <= i < spec_added(t, s).len() ==> {
                let r = #[trigger] spec_added(t, s)[i];
                &&& !r.tombstoned
                &&& wa_contains(s, r.addr)
                &&& r.weight == wa_weight(s, r.addr)
                &&& r.pending == 0 && r.active == 0
            },
    decreases s.len(),
{
    if s.len() == 0 {
    } else {
        assert(wa_unique(s.drop_last()));
        lemma_added_props(t, s.drop_last());
        assert forall|i: int| 0 <= i < spec_added(t, s).len() implies {
            let r = #[trigger] spec_added(t, s)[i];
            &&& !r.tombstoned
            &&& wa_contains(s, r.addr)
            &&& r.weight == wa_weight(s, r.addr)
            &&& r.pending == 0 && r.active == 0
        } by {
            let pre = spec_added(t, s.drop_last());
            if i < pre.len() {
                assert(spec_added(t, s)[i] == pre[i]);
                let r = pre[i];
                assert(wa_contains(s.drop_last(), r.addr));
                let k = wa_index(s.drop_last(), r.addr);
                assert(s[k].addr == r.addr);
                lemma_wa_weight_at(s.drop_last(), k);
                lemma_wa_weight_at(s, k);
            } else {
                assert(spec_added(t, s)[i] == new_record(s.last()));
                assert(s[s.len() - 1].addr == s.last().addr);
                lemma_wa_weight_at(s, s.len() - 1);
            }
        }
    }
}

/// A record whose address the update names is retained by `spec_keep`.
pub proof fn lemma_keep_contains(t: Seq<EndpointState>, s: Seq<WeightedAddr>, a: Addr)
    requires
        ep_contains(t, a),
        wa_contains(s, a),
    ensures
        ep_contains(spec_keep(t, s), a),
    decreases t.len(),
{
    let k = ep_index(t, a);
    assert(0 <= k < t.len() && t[k].addr == a);
    if k == t.len() - 1 {
        let kept = keep_one(t.last(), s);
        assert(kept[0].addr == a);
        let r = spec_keep(t, s);
        assert(r[r.len() - 1].addr == a);
    } else {
        assert(ep_contains(t.drop_last(), a)) by {
            assert(t.drop_last()[k].addr == a);
        }
        lemma_keep_contains(t.drop_last(), s, a);
        let pre = spec_keep(t.drop_last(), s);
        let j = ep_index(pre, a);
        assert(spec_keep(t, s)[j].addr == a);
    }
}

/// An address the update names and the table lacks appears among the inserted
/// rows.
pub proof fn lemma_added_contains(t: Seq<EndpointState>, s: Seq<WeightedAddr>, a: Addr)
    requires
        wa_contains(s, a),
        !ep_contains(t, a),
    ensures
        ep_contains(spec_added(t, s), a),
    decreases s.len(),
{
    let k = wa_index(s, a);
    assert(0 <= k < s.len() && s[k].addr == a);
    if k == s.len() - 1 {
        let r = spec_added(t, s);
        assert(r[r.len() - 1].addr == a);
    } else {
        assert(wa_contains(s.drop_last(), a)) by {
            assert(s.drop_last()[k].addr == a);
        }
        lemma_added_contains(t, s.drop_last(), a);
        let pre = spec_added(t, s.drop_last());
        let j = ep_index(pre, a);
        assert(spec_added(t, s)[j].addr == a);
    }
}

/// Every address the update names has a record in the reconciled table.
pub proof fn lemma_all_present(t: Seq<EndpointState>, s: Seq<WeightedAddr>, a: Addr)
    requires
        wa_contains(s, a),
    ensures
        ep_contains(spec_reconcile(t, s), a),
{
    let r = spec_reconcile(t, s);
    if ep_contains(t, a) {
        lemma_keep_contains(t, s, a);
        let j = ep_index(spec_keep(t, s), a);
        assert(r[j].addr == a);
    } else {
        lemma_added_contains(t, s, a);
        let j = ep_index(spec_added(t, s), a);
        assert(r[spec_keep(t, s).len() + j].addr == a);
    }
}

/// On a table whose rows already obey the reconciliation rule for `s`,
/// `spec_keep` changes nothing.
pub proof fn lemma_keep_identity(u: Seq<EndpointState>, s: Seq<WeightedAddr>)
    requires
        forall|i: int|
            0 <= i < u.len() ==> {
                let r = #[trigger] u[i];
                &&& (wa_contains(s, r.addr) ==> !r.tombstoned && r.weight == wa_weight(s, r.addr))
                &&& (!wa_contains(s, r.addr) ==> r.tombstoned && r.pending + r.active > 0)
            },
    ensures
        spec_keep(u, s) == u,
    decreases u.len(),
{
    if u.len() == 0 {
        assert(spec_keep(u, s) =~= u);
    } else {
        lemma_keep_identity(u.drop_last(), s);
        let e = u.last();
        assert(u[u.len() - 1] == e);
        if wa_contains(s, e.addr) {
            assert(refreshed(e, wa_weight(s, e.addr)) == e);
        } else {
            assert(tombstoned(e) == e);
        }
        assert(spec_keep(u, s) =~= u);
    }
}

/// On a table that already holds every address the update names, reconciliation
/// inserts nothing.
pub proof fn lemma_added_empty(u: Seq<EndpointState>, s: Seq<WeightedAddr>)
    requires
        forall|j: int| 0 <= j < s.len() ==> ep_contains(u, #[trigger] s[j].addr),
    ensures
        spec_added(u, s) == Seq::<EndpointState>::empty(),
    decreases s.len(),
{
    if s.len() == 0 {
        assert(spec_added(u, s) =~= Seq::<EndpointState>::empty());
    } else {
        lemma_added_empty(u, s.drop_last());
        assert(s[s.len() - 1] == s.last());
        assert(spec_added(u, s) =~= Seq::<EndpointState>::empty());
    }
}

/// Reconciliation is idempotent: applying the same endpoint set twice yields
/// the table the first application yields.
pub proof fn lemma_reconcile_idempotent(t: Seq<EndpointState>, s: Seq<WeightedAddr>)
    requires
        ep_unique(t),
        wa_unique(s),
    ensures
        spec_reconcile(spec_reconcile(t, s), s) == spec_reconcile(t, s),
{
    let r = spec_reconcile(t, s);
    lemma_keep_props(t, s);
    lemma_added_props(t, s);
    assert forall|i: int| 0 <= i < r.len() implies {
        let x = #[trigger] r[i];
        &&& (wa_contains(s, x.addr) ==> !x.tombstoned && x.weight == wa_weight(s, x.addr))
        &&& (!wa_contains(s, x.addr) ==> x.tombstoned && x.pending + x.active > 0)
    } by {
        let k = spec_keep(t, s);
        if i < k.len() {
            assert(r[i] == k[i]);
        } else {
            assert(r[i] == spec_added(t, s)[i - k.len()]);
        }
    }
    lemma_keep_identity(r, s);
    assert forall|j: int| 0 <= j < s.len() implies ep_contains(r, #[trigger] s[j].addr) by {
        lemma_all_present(t, s, s[j].addr);
    }
    lemma_added_empty(r, s);
    assert(spec_reconcile(r, s) =~= r);
}

/// No kept row carries an unnamed address whose every source record is
/// drained.
pub proof fn lemma_keep_drained_gone(t: Seq<EndpointState>, s: Seq<WeightedAddr>, a: Addr)
    requires
        !wa_contains(s, a),
        forall|i: int|
            0 <= i < t.len() && (#[trigger] t[i]).addr == a ==> t[i].pending == 0 && t[i].active
                == 0,
    ensures
        !ep_contains(spec_keep(t, s), a),
    decreases t.len(),
{
    if t.len() == 0 {
    } else {
        lemma_keep_drained_gone(t.drop_last(), s, a);
        assert(t[t.len() - 1] == t.last());
        if ep_contains(spec_keep(t, s), a) {
            let j = ep_index(spec_keep(t, s), a);
            let pre = spec_keep(t.drop_last(), s);
            if j < pre.len() {
                assert(pre[j].addr == a);
            } else {
                assert(keep_one(t.last(), s)[j - pre.len()].addr == a);
            }
        }
    }
}

/// Removal: an address the update does not name, all of whose records are
/// drained, is absent from the reconciled table.
pub proof fn lemma_reconcile_removed(t: Seq<EndpointState>, s: Seq<WeightedAddr>, a: Addr)
    requires
        !wa_contains(s, a),
        forall|i: int|
            0 <= i < t.len() && (#[trigger] t[i]).addr == a ==> t[i].pending == 0 && t[i].active
                == 0,
    ensures
        !ep_contains(spec_reconcile(t, s), a),
{
    lemma_keep_drained_gone(t, s, a);
    lemma_added_addrs(t, s);
    let r = spec_reconcile(t, s);
    if ep_contains(r, a) {
        let j = ep_index(r, a);
        let k = spec_keep(t, s);
        if j < k.len() {
            assert(k[j].addr == a);
        } else {
            assert(spec_added(t, s)[j - k.len()].addr == a);
        }
    }
}

/// Restoration: an address the update names stands in the reconciled table,
/// not tombstoned, at the weight the update gives it.
pub proof fn lemma_reconcile_present(t: Seq<EndpointState>, s: Seq<WeightedAddr>, a: Addr)
    requires
        wa_unique(s),
        wa_contains(s, a),
    ensures
        ep_contains(spec_reconcile(t, s), a),
        forall|i: int|
            0 <= i < spec_reconcile(t, s).len() && (#[trigger] spec_reconcile(t, s)[i]).addr == a
                ==> !spec_reconcile(t, s)[i].tombstoned && spec_reconcile(t, s)[i].weight
                == wa_weight(s, a),
{
    lemma_all_present(t, s, a);
    lemma_keep_props(t, s);
    lemma_added_props(t, s);
    let r = spec_reconcile(t, s);
    assert forall|i: int|
        0 <= i < r.len() && (#[trigger] r[i]).addr == a implies !r[i].tombstoned && r[i].weight
        == wa_weight(s, a) by {
        let k = spec_keep(t, s);
        if i < k.len() {
            assert(r[i] == k[i]);
        } else {
            assert(r[i] == spec_added(t, s)[i - k.len()]);
        }
    }
}

/// Reconciliation keeps the table well formed.
pub proof fn lemma_reconcile_wf(t: Seq<EndpointState>, s: Seq<WeightedAddr>)
    requires
        ep_unique(t),
        wa_unique(s),
    ensures
        ep_unique(spec_reconcile(t, s)),
{
    lemma_keep_addrs(t, s);
    lemma_added_addrs(t, s);
    let r = spec_reconcile(t, s);
    assert forall|i: int, j: int| 0 <= i < j < r.len() implies r[i].addr != r[j].addr by {
        let k = spec_keep(t, s);
        let a = spec_added(t, s);
        if i < k.len() && j >= k.len() {
            assert(r[i] == k[i]);
            assert(r[j] == a[j - k.len()]);
            assert(ep_contains(t, k[i].addr));
            assert(!ep_contains(t, a[j - k.len()].addr));
        } else if i < k.len() {
            assert(r[i] == k[i] && r[j] == k[j]);
        } else {
            assert(r[i] == a[i - k.len()] && r[j] == a[j - k.len()]);
        }
    }
}

} // verus!
