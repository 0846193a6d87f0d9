use vstd::prelude::*;

use crate::params::{Rational, SimParams};
use crate::rng::Rng;

verus! {

/// Receives progress reports: the year and the count reached so far.
pub trait ProgressObserver {
    /// The reports received so far, oldest first.
    spec fn reports(&self) -> Seq<(u32, u32)>;

    fn on_progress(&mut self, year: u32, reached: u32)
        ensures
            final(self).reports() == old(self).reports().push((year, reached)),
    ;
}

/// An observer that keeps every report.
pub struct ProgressLog {
    pub reports: Vec<(u32, u32)>,
}

impl ProgressLog {
    pub fn new() -> (r: ProgressLog)
        ensures
            r.reports@ == Seq::<(u32, u32)>::empty(),
    {
        ProgressLog { reports: Vec::new() }
    }
}

impl ProgressObserver for ProgressLog {
    open spec fn reports(&self) -> Seq<(u32, u32)> {
        self.reports@
    }

    fn on_progress(&mut self, year: u32, reached: u32) {
        self.reports.push((year, reached));
    }
}

/// The growth recorded at the end of one year.
#[derive(Clone, Debug, PartialEq, Eq)]
pub struct YearlyState {
    /// People influenced so far, not counting the start person.
    pub influenced: u32,
    /// The `(influencer, influenced)` pairs of the year, when tracked.
    pub ancestors: Option<Vec<(u32, u32)>>,
}

impl YearlyState {
    pub fn new(influenced: u32, ancestors: Option<Vec<(u32, u32)>>) -> (r: YearlyState)
        ensures
            r.influenced == influenced,
            r.ancestors == ancestors,
    {
        YearlyState { influenced, ancestors }
    }
}

/// Why a run stopped.
#[derive(Clone, Copy, Debug, PartialEq, Eq, Structural)]
pub enum EndReason {
    EveryoneReached,
    NetworkSaturation,
    MaxTime,
}

/// The outcome of a run. The share of the population reached is
/// `(people_reached + 1) / total_population`.
#[derive(Clone, Debug, PartialEq, Eq)]
pub struct SimResult {
    pub years: u32,
    pub people_reached: u32,
    pub yearly_state: Vec<YearlyState>,
    pub end_reason: EndReason,
    pub total_population: u32,
    pub start_id: u32,
}

/// The growth curve never falls.
pub open spec fn growth_monotone(ys: Seq<YearlyState>) -> bool {
    forall|i: int, j: int| 0 <= i <= j < ys.len() ==> #[trigger] ys[i].influenced <= #[trigger] ys[j].influenced
}

/// The `(influencer, influenced)` pairs recorded for a year; none when untracked.
pub open spec fn edges(y: YearlyState) -> Seq<(u32, u32)> {
    match y.ancestors {
        Some(a) => a@,
        None => Seq::empty(),
    }
}

/// `v` was influenced through a recorded pair in one of the first `k` years.
pub open spec fn reached_before(ys: Seq<YearlyState>, k: int, v: u32) -> bool {
    exists|i: int, j: int| 0 <= i < k && 0 <= j < edges(ys[i]).len() && (#[trigger] edges(ys[i])[j]).1 == v
}

/// Every recorded pair `(u, v)` of a year has `u` reached in an earlier year
/// or `u` the start person, and each `v` other than the start person is the
/// influenced side of exactly one pair in the whole run.
pub open spec fn ancestry_wf(ys: Seq<YearlyState>, start: u32) -> bool {
    &&& forall|i: int, j: int|
        0 <= i < ys.len() && 0 <= j < edges(ys[i]).len() ==> {
            let e = #[trigger] edges(ys[i])[j];
            &&& (e.0 == start || reached_before(ys, i, e.0))
            &&& e.1 != start
        }
    &&& forall|i1: int, j1: int, i2: int, j2: int|
        0 <= i1 < ys.len() && 0 <= j1 < edges(ys[i1]).len() && 0 <= i2 < ys.len() && 0 <= j2 < edges(
            ys[i2],
        ).len() && (#[trigger] edges(ys[i1])[j1]).1 == (#[trigger] edges(ys[i2])[j2]).1 ==> i1 == i2
            && j1 == j2
}

/// What a finished run states of its result.
pub open spec fn result_wf(r: SimResult, params: SimParams) -> bool {
    let ys = r.yearly_state@;
    let n = params.total_population as int;
    &&& r.total_population == params.total_population
    &&& r.start_id < n
    &&& r.years == ys.len()
    &&& r.people_reached < n
    &&& growth_monotone(ys)
    &&& forall|i: int| 0 <= i < ys.len() ==> #[trigger] ys[i].influenced <= r.people_reached
    &&& forall|i: int| 0 <= i < ys.len() ==> (#[trigger] ys[i].ancestors).is_some() == params.track_ancestors
    &&& ancestry_wf(ys, r.start_id)
    &&& (r.end_reason == EndReason::EveryoneReached <==> r.people_reached == n - 1 && (r.years < params.max_years || (r.years == 0)))
    &&& r.end_reason == EndReason::MaxTime ==> r.years == params.max_years || (params.max_years == 0 && r.years == 1)
    &&& r.end_reason == EndReason::NetworkSaturation ==> r.people_reached < n - 1
    &&& r.end_reason == EndReason::NetworkSaturation ==> r.years < params.max_years || r.years == 0
    &&& (r.end_reason == EndReason::MaxTime <==> r.years == if params.max_years == 0 { 1 } else { params.max_years })
    &&& r.years > 0 ==> r.people_reached == ys[r.years - 1].influenced
    &&& r.years == 0 ==> r.people_reached == 0
    &&& n == 1 ==> r.years == 0 && r.end_reason == EndReason::EveryoneReached
    &&& forall|i: int, j: int|
        0 <= i < ys.len() && 0 <= j < edges(ys[i]).len() ==> (#[trigger] edges(ys[i])[j]).0 < n
            && edges(ys[i])[j].1 < n
    &&& params.track_ancestors ==> forall|i: int| 0 <= i < ys.len() ==> #[trigger] edges(ys[i]).len() == year_gain(ys, i)
}

/// `t` is on the neighbour list that `start` gets from generator state `s`
/// with an empty cache (see `SocialNetwork::get_connections`).
pub open spec fn first_linked(avg: Rational, ratio: Rational, n: int, start: u32, s: u64, t: u32) -> bool {
    let x = crate::rng::xorshift(s);
    let w = crate::network::within_count(avg, ratio, x);
    let b = crate::network::between_count(avg, w);
    crate::network::ring_member(start as int, n, w / 2, t as int) || crate::network::draw_member(
        x,
        n,
        start as int,
        b,
        t as int,
    )
}

/// The first neighbour list of `start`, drawn from state `s`, holds no one
/// but `start`: the run cannot leave its start person.
pub open spec fn start_isolated(avg: Rational, ratio: Rational, n: int, start: u32, s: u64) -> bool {
    forall|t: u32| t != start ==> !#[trigger] first_linked(avg, ratio, n, start, s, t)
}

/// How many people the year of index `i` added.
pub open spec fn year_gain(ys: Seq<YearlyState>, i: int) -> int {
    if i == 0 {
        ys[i].influenced as int
    } else {
        ys[i].influenced - ys[i - 1].influenced
    }
}

/// The reports made after the first `base`: years from 1 to `last_year`,
/// counts from 1 to `n`, both never falling.
pub open spec fn reports_ordered(rs: Seq<(u32, u32)>, base: int, last_year: int, last_count: int) -> bool {
    &&& forall|k: int| base <= k < rs.len() ==> 1 <= (#[trigger] rs[k]).0 <= last_year && 1 <= rs[k].1 <= last_count
    &&& forall|k1: int, k2: int| base <= k1 <= k2 < rs.len() ==> (#[trigger] rs[k1]).0 <= (#[trigger] rs[k2]).0
        && rs[k1].1 <= rs[k2].1
}

/// Each recorded year has a report, after the first `base`, of its year and
/// of everyone reached by its end.
pub open spec fn years_reported(rs: Seq<(u32, u32)>, base: int, ys: Seq<YearlyState>) -> bool {
    forall|i: int| 0 <= i < ys.len() ==> has_report(rs, base, ((i + 1) as u32, (#[trigger] ys[i].influenced + 1) as u32))
}

/// `r` is one of the reports after the first `base`.
pub open spec fn has_report(rs: Seq<(u32, u32)>, base: int, r: (u32, u32)) -> bool {
    exists|k: int| base <= k < rs.len() && #[trigger] rs[k] == r
}

/// A vector of `n` cleared flags.
pub(crate) fn cleared_flags(n: usize) -> (r: Vec<bool>)
    ensures
        r@.len() == n,
        forall|i: int| 0 <= i < n ==> !#[trigger] r@[i],
{
    let mut v: Vec<bool> = Vec::new();
    let mut i: usize = 0;
    while i < n
        invariant
            i <= n,
            v@.len() == i,
            forall|j: int| 0 <= j < i ==> !#[trigger] v@[j],
        decreases n - i,
    {
        v.push(false);
        i = i + 1;
    }
    v
}

/// How many of `available` neighbours an influencer reaches this year:
/// `min(rate, available)`, where a fractional `rate` below `available` is
/// rounded up when a draw falls below its fractional part, down otherwise.
pub fn reach_count(rng: &mut Rng, rate: Rational, available: usize) -> (r: usize)
    requires
        rate.wf(),
    ensures
        r <= available,
        available > 0 && available <= rate.floor_spec() ==> r == available,
        (rate.num as int) >= available as int * rate.den as int ==> r == available && final(rng).state == old(rng).state,
        (rate.num as int) < available as int * rate.den as int && rate.rem_spec() == 0 ==> r == rate.floor_spec() && final(rng).state == old(rng).state,
        (rate.num as int) < available as int * rate.den as int && rate.rem_spec() != 0 ==> {
            &&& final(rng).state == crate::rng::xorshift(old(rng).state)
            &&& r == rate.floor_spec() + if crate::rng::below(final(rng).state, rate.rem_spec(), rate.den as int) { 1int } else { 0int }
        },
{
    let p = rate.num as u64;
    let q = rate.den as u64;
    let whole = p / q;
    let rem = p % q;
    proof {
        assert(available as int * q as int <= u128::MAX) by (nonlinear_arith)
            requires available <= u64::MAX, q <= u32::MAX;
    }
    if (p as u128) < (available as u128) * (q as u128) {
        proof {
            assert(whole < available) by (nonlinear_arith)
                requires whole == p / q, q > 0, p < available * q;
        }
        if rem != 0 {
            if rng.chance(rem, q) {
                (whole + 1) as usize
            } else {
                whole as usize
            }
        } else {
            whole as usize
        }
    } else {
        proof {
            assert(available > 0 && available <= p / q ==> p >= available * q) by (nonlinear_arith)
                requires q > 0;
        }
        available
    }
}


/// The recorded years followed by the year under way, whose pairs are
/// `anc` when tracked.
pub open spec fn with_current(ys: Seq<YearlyState>, track: bool, anc: Vec<(u32, u32)>) -> Seq<YearlyState> {
    ys.push(YearlyState { influenced: 0, ancestors: if track { Some(anc) } else { None } })
}

/// Two runs of years with the same pairs year by year.
pub open spec fn same_edges(a: Seq<YearlyState>, b: Seq<YearlyState>) -> bool {
    a.len() == b.len() && forall|i: int| 0 <= i < a.len() ==> #[trigger] edges(a[i]) == edges(b[i])
}

pub(crate) proof fn lemma_same_edges(a: Seq<YearlyState>, b: Seq<YearlyState>, start: u32)
    requires
        same_edges(a, b),
    ensures
        ancestry_wf(a, start) == ancestry_wf(b, start),
        forall|k: int, v: u32| 0 <= k <= a.len() ==> reached_before(a, k, v) == reached_before(b, k, v),
{
    assert forall|k: int, v: u32| 0 <= k <= a.len() implies reached_before(a, k, v) == reached_before(b, k, v) by {
        if reached_before(a, k, v) {
            let (i, j) = choose|i: int, j: int| 0 <= i < k && 0 <= j < edges(a[i]).len() && (#[trigger] edges(a[i])[j]).1 == v;
            assert(edges(a[i]) == edges(b[i]));
            assert(edges(b[i])[j].1 == v);
        }
        if reached_before(b, k, v) {
            let (i, j) = choose|i: int, j: int| 0 <= i < k && 0 <= j < edges(b[i]).len() && (#[trigger] edges(b[i])[j]).1 == v;
            assert(edges(a[i]) == edges(b[i]));
            assert(edges(a[i])[j].1 == v);
        }
    }
    if ancestry_wf(a, start) {
        assert forall|i: int, j: int| 0 <= i < b.len() && 0 <= j < edges(b[i]).len() implies {
            let e = #[trigger] edges(b[i])[j];
            &&& (e.0 == start || reached_before(b, i, e.0))
            &&& e.1 != start
        } by {
            assert(edges(a[i]) == edges(b[i]));
            assert(edges(a[i])[j] == edges(b[i])[j]);
        }
        assert forall|i1: int, j1: int, i2: int, j2: int|
            0 <= i1 < b.len() && 0 <= j1 < edges(b[i1]).len() && 0 <= i2 < b.len() && 0 <= j2 < edges(b[i2]).len()
                && (#[trigger] edges(b[i1])[j1]).1 == (#[trigger] edges(b[i2])[j2]).1 implies i1 == i2 && j1 == j2 by {
            assert(edges(a[i1]) == edges(b[i1]));
            assert(edges(a[i2]) == edges(b[i2]));
            assert(edges(a[i1])[j1].1 == edges(a[i2])[j2].1);
        }
    }
    if ancestry_wf(b, start) {
        assert forall|i: int, j: int| 0 <= i < a.len() && 0 <= j < edges(a[i]).len() implies {
            let e = #[trigger] edges(a[i])[j];
            &&& (e.0 == start || reached_before(a, i, e.0))
            &&& e.1 != start
        } by {
            assert(edges(a[i]) == edges(b[i]));
            assert(edges(b[i])[j] == edges(a[i])[j]);
        }
        assert forall|i1: int, j1: int, i2: int, j2: int|
            0 <= i1 < a.len() && 0 <= j1 < edges(a[i1]).len() && 0 <= i2 < a.len() && 0 <= j2 < edges(a[i2]).len()
                && (#[trigger] edges(a[i1])[j1]).1 == (#[trigger] edges(a[i2])[j2]).1 implies i1 == i2 && j1 == j2 by {
            assert(edges(a[i1]) == edges(b[i1]));
            assert(edges(a[i2]) == edges(b[i2]));
            assert(edges(b[i1])[j1].1 == edges(b[i2])[j2].1);
        }
    }
}

/// Opening a year with no pairs keeps the ancestry well formed.
pub(crate) proof fn lemma_open_year(ys: Seq<YearlyState>, track: bool, anc: Vec<(u32, u32)>, start: u32)
    requires
        ancestry_wf(ys, start),
        anc@.len() == 0,
    ensures
        ancestry_wf(with_current(ys, track, anc), start),
        forall|k: int, v: u32| 0 <= k <= ys.len() ==> reached_before(ys, k, v) == reached_before(with_current(ys, track, anc), k, v),
{
    let w = with_current(ys, track, anc);
    assert(edges(w[ys.len() as int]).len() == 0);
    assert forall|i: int| 0 <= i < ys.len() implies #[trigger] w[i] == ys[i] by {}
    assert forall|k: int, v: u32| 0 <= k <= ys.len() implies reached_before(ys, k, v) == reached_before(w, k, v) by {
        if reached_before(ys, k, v) {
            let (i, j) = choose|i: int, j: int| 0 <= i < k && 0 <= j < edges(ys[i]).len() && (#[trigger] edges(ys[i])[j]).1 == v;
            assert(w[i] == ys[i]);
            assert(edges(w[i])[j].1 == v);
        }
        if reached_before(w, k, v) {
            let (i, j) = choose|i: int, j: int| 0 <= i < k && 0 <= j < edges(w[i]).len() && (#[trigger] edges(w[i])[j]).1 == v;
            assert(w[i] == ys[i]);
            assert(edges(ys[i])[j].1 == v);
        }
    }
    assert forall|i: int, j: int| 0 <= i < w.len() && 0 <= j < edges(w[i]).len() implies {
        let e = #[trigger] edges(w[i])[j];
        &&& (e.0 == start || reached_before(w, i, e.0))
        &&& e.1 != start
    } by {
        assert(w[i] == ys[i]);
        assert(edges(ys[i])[j] == edges(w[i])[j]);
    }
    assert forall|i1: int, j1: int, i2: int, j2: int|
        0 <= i1 < w.len() && 0 <= j1 < edges(w[i1]).len() && 0 <= i2 < w.len() && 0 <= j2 < edges(w[i2]).len()
            && (#[trigger] edges(w[i1])[j1]).1 == (#[trigger] edges(w[i2])[j2]).1 implies i1 == i2 && j1 == j2 by {
        assert(w[i1] == ys[i1]);
        assert(w[i2] == ys[i2]);
        assert(edges(ys[i1])[j1].1 == edges(ys[i2])[j2].1);
    }
}

/// The year under way leaves the earlier years as they were; with no pairs
/// yet, it adds no one to those reached.
pub(crate) proof fn lemma_current_prefix(ys: Seq<YearlyState>, track: bool, anc: Vec<(u32, u32)>)
    ensures
        forall|k: int, v: u32| 0 <= k <= ys.len() ==> reached_before(ys, k, v) == #[trigger] reached_before(with_current(ys, track, anc), k, v),
        forall|v: u32| #[trigger] reached_before(ys, ys.len() as int, v) ==> reached_before(with_current(ys, track, anc), ys.len() as int + 1, v),
        anc@.len() == 0 ==> forall|v: u32| #[trigger] reached_before(with_current(ys, track, anc), ys.len() as int + 1, v) ==> reached_before(ys, ys.len() as int, v),
        forall|i: int| 0 <= i < ys.len() ==> #[trigger] with_current(ys, track, anc)[i] == ys[i],
{
    let w = with_current(ys, track, anc);
    let l = ys.len() as int;
    assert forall|i: int| 0 <= i < l implies #[trigger] w[i] == ys[i] by {}
    assert forall|k: int, v: u32| 0 <= k <= l + 1 && reached_before(w, k, v) && (k <= l || anc@.len() == 0) implies reached_before(ys, if k <= l { k } else { l }, v) by {
        let (i, j) = choose|i: int, j: int| 0 <= i < k && 0 <= j < edges(w[i]).len() && (#[trigger] edges(w[i])[j]).1 == v;
        if i < l {
            assert(w[i] == ys[i]);
            assert(edges(ys[i])[j].1 == v);
        } else {
            assert(edges(w[l]).len() == anc@.len());
        }
    }
    assert forall|k: int, v: u32| 0 <= k <= l && reached_before(ys, k, v) implies reached_before(w, k, v) && reached_before(w, l + 1, v) by {
        let (i, j) = choose|i: int, j: int| 0 <= i < k && 0 <= j < edges(ys[i]).len() && (#[trigger] edges(ys[i])[j]).1 == v;
        assert(w[i] == ys[i]);
        assert(edges(w[i])[j].1 == v);
    }
}

/// Recording a pair `(u, v)` for the year under way, where `u` was reached
/// in an earlier year or started the run and `v` is new, keeps the ancestry
/// well formed.
pub(crate) proof fn lemma_add_edge(
    ys: Seq<YearlyState>,
    anc: Vec<(u32, u32)>,
    anc2: Vec<(u32, u32)>,
    start: u32,
    u: u32,
    v: u32,
)
    requires
        ancestry_wf(with_current(ys, true, anc), start),
        anc2@ == anc@.push((u, v)),
        u == start || reached_before(ys, ys.len() as int, u),
        v != start,
        forall|i: int, j: int| 0 <= i < ys.len() + 1 && 0 <= j < edges(with_current(ys, true, anc)[i]).len()
            ==> (#[trigger] edges(with_current(ys, true, anc)[i])[j]).1 != v,
    ensures
        ancestry_wf(with_current(ys, true, anc2), start),
        forall|k: int, p: u32| 0 <= k <= ys.len() ==> reached_before(with_current(ys, true, anc2), k, p) == reached_before(ys, k, p),
        forall|p: u32| #[trigger] reached_before(with_current(ys, true, anc2), ys.len() as int + 1, p) <==> (reached_before(with_current(ys, true, anc), ys.len() as int + 1, p) || p == v),
{
    let w = with_current(ys, true, anc);
    let w2 = with_current(ys, true, anc2);
    let l = ys.len() as int;
    assert forall|i: int| 0 <= i < l implies #[trigger] w2[i] == ys[i] && w[i] == ys[i] by {}
    assert(edges(w[l]) == anc@);
    assert(edges(w2[l]) == anc2@);
    assert forall|k: int, p: u32| 0 <= k <= l implies reached_before(w2, k, p) == reached_before(ys, k, p) by {
        if reached_before(ys, k, p) {
            let (i, j) = choose|i: int, j: int| 0 <= i < k && 0 <= j < edges(ys[i]).len() && (#[trigger] edges(ys[i])[j]).1 == p;
            assert(w2[i] == ys[i]);
            assert(edges(w2[i])[j].1 == p);
        }
        if reached_before(w2, k, p) {
            let (i, j) = choose|i: int, j: int| 0 <= i < k && 0 <= j < edges(w2[i]).len() && (#[trigger] edges(w2[i])[j]).1 == p;
            assert(w2[i] == ys[i]);
            assert(edges(ys[i])[j].1 == p);
        }
    }
    assert forall|k: int, p: u32| 0 <= k <= l implies reached_before(w, k, p) == reached_before(ys, k, p) by {
        if reached_before(ys, k, p) {
            let (i, j) = choose|i: int, j: int| 0 <= i < k && 0 <= j < edges(ys[i]).len() && (#[trigger] edges(ys[i])[j]).1 == p;
            assert(w[i] == ys[i]);
            assert(edges(w[i])[j].1 == p);
        }
        if reached_before(w, k, p) {
            let (i, j) = choose|i: int, j: int| 0 <= i < k && 0 <= j < edges(w[i]).len() && (#[trigger] edges(w[i])[j]).1 == p;
            assert(w[i] == ys[i]);
            assert(edges(ys[i])[j].1 == p);
        }
    }
    assert forall|p: u32| #[trigger] reached_before(w2, l + 1, p) <==> (reached_before(w, l + 1, p) || p == v) by {
        if reached_before(w2, l + 1, p) {
            let (i, j) = choose|i: int, j: int| 0 <= i < l + 1 && 0 <= j < edges(w2[i]).len() && (#[trigger] edges(w2[i])[j]).1 == p;
            if i < l {
                assert(w2[i] == w[i]);
                assert(edges(w[i])[j].1 == p);
            } else if j < anc@.len() {
                assert(edges(w[l])[j].1 == p);
            }
        }
        if reached_before(w, l + 1, p) {
            let (i, j) = choose|i: int, j: int| 0 <= i < l + 1 && 0 <= j < edges(w[i]).len() && (#[trigger] edges(w[i])[j]).1 == p;
            if i < l {
                assert(w2[i] == w[i]);
                assert(edges(w2[i])[j].1 == p);
            } else {
                assert(edges(w2[l])[j].1 == p);
            }
        }
        if p == v {
            assert(edges(w2[l])[anc@.len() as int].1 == p);
        }
    }
    assert forall|i: int, j: int| 0 <= i < w2.len() && 0 <= j < edges(w2[i]).len() implies {
        let e = #[trigger] edges(w2[i])[j];
        &&& (e.0 == start || reached_before(w2, i, e.0))
        &&& e.1 != start
    } by {
        if i < l {
            assert(w2[i] == w[i]);
            assert(edges(w[i])[j] == edges(w2[i])[j]);
        } else if j < anc@.len() {
            assert(edges(w[l])[j] == edges(w2[l])[j]);
        }
    }
    assert forall|i1: int, j1: int, i2: int, j2: int|
        0 <= i1 < w2.len() && 0 <= j1 < edges(w2[i1]).len() && 0 <= i2 < w2.len() && 0 <= j2 < edges(w2[i2]).len()
            && (#[trigger] edges(w2[i1])[j1]).1 == (#[trigger] edges(w2[i2])[j2]).1 implies i1 == i2 && j1 == j2 by {
        let last1 = i1 == l && j1 == anc@.len();
        let last2 = i2 == l && j2 == anc@.len();
        if !last1 {
            assert(edges(w2[i1])[j1] == edges(w[i1])[j1]);
        }
        if !last2 {
            assert(edges(w2[i2])[j2] == edges(w[i2])[j2]);
        }
    }
}

} // verus!

verus! {

/// A report of the current year and count keeps the reports ordered and
/// keeps every earlier year's report.
pub(crate) proof fn lemma_report(rs: Seq<(u32, u32)>, base: int, ys: Seq<YearlyState>, y: u32, c: u32)
    requires
        0 <= base <= rs.len(),
        1 <= y,
        1 <= c,
        reports_ordered(rs, base, y as int, c as int),
        years_reported(rs, base, ys),
    ensures
        reports_ordered(rs.push((y, c)), base, y as int, c as int),
        years_reported(rs.push((y, c)), base, ys),
        forall|k: int| 0 <= k < rs.len() ==> #[trigger] rs.push((y, c))[k] == rs[k],
{
    let rs2 = rs.push((y, c));
    assert forall|k: int| 0 <= k < rs.len() implies #[trigger] rs2[k] == rs[k] by {}
    assert forall|i: int| 0 <= i < ys.len() implies has_report(rs2, base, ((i + 1) as u32, (#[trigger] ys[i].influenced + 1) as u32)) by {
        let r = ((i + 1) as u32, (ys[i].influenced + 1) as u32);
        assert(has_report(rs, base, r));
        let k = choose|k: int| base <= k < rs.len() && #[trigger] rs[k] == r;
        assert(rs2[k] == rs[k]);
    }
    assert forall|k1: int, k2: int| base <= k1 <= k2 < rs2.len() implies (#[trigger] rs2[k1]).0 <= (#[trigger] rs2[k2]).0
        && rs2[k1].1 <= rs2[k2].1 by {
        if k2 < rs.len() {
            assert(rs2[k1] == rs[k1] && rs2[k2] == rs[k2]);
        } else if k1 < rs.len() {
            assert(rs2[k1] == rs[k1]);
        }
    }
    assert forall|k: int| base <= k < rs2.len() implies 1 <= (#[trigger] rs2[k]).0 <= y && 1 <= rs2[k].1 <= c by {
        if k < rs.len() {
            assert(rs2[k] == rs[k]);
        }
    }
}

/// The last report, of the year just recorded, covers that year.
pub(crate) proof fn lemma_year_reported(rs: Seq<(u32, u32)>, base: int, ys: Seq<YearlyState>, y: YearlyState)
    requires
        0 <= base < rs.len(),
        years_reported(rs, base, ys),
        rs.last() == ((ys.len() + 1) as u32, (y.influenced + 1) as u32),
    ensures
        years_reported(rs, base, ys.push(y)),
{
    let ys2 = ys.push(y);
    assert forall|i: int| 0 <= i < ys2.len() implies has_report(rs, base, ((i + 1) as u32, (#[trigger] ys2[i].influenced + 1) as u32)) by {
        if i < ys.len() {
            assert(ys2[i] == ys[i]);
        } else {
            assert(rs[rs.len() - 1] == ((i + 1) as u32, (ys2[i].influenced + 1) as u32));
        }
    }
}

} // verus!
