use vstd::prelude::*;
use vstd::set_lib::{lemma_int_range, lemma_len_subset, set_int_range};

use crate::engine::{
    ancestry_wf, cleared_flags, edges, growth_monotone, lemma_add_edge, lemma_current_prefix, lemma_open_year,
    lemma_report, lemma_same_edges, lemma_year_reported, reach_count, reached_before, reports_ordered,
    result_wf, same_edges, start_isolated, first_linked, with_current, year_gain, years_reported, EndReason,
    ProgressObserver, SimResult, YearlyState,
};
use crate::network::{id_list, SocialNetwork};
use crate::params::{Rational, SimError, SimParams};
use crate::rng::{index_of, seed_state, xorshift, Rng};

verus! {

/// Runs the diffusion: seeds the generator from `params.seed`, or from the two
/// entropy words when there is none, picks a start person, and spreads year by
/// year until everyone is reached, no influencer finds anyone new, or
/// `params.max_years` years have run. Reports progress to `observer`.
pub fn simulate<O: ProgressObserver>(
    influence_per_year: Rational,
    params: &SimParams,
    entropy_lo: u32,
    entropy_hi: u32,
    observer: &mut O,
) -> (r: Result<SimResult, SimError>)
    ensures
        params.total_population == 0 ==> r == Err::<SimResult, SimError>(SimError::EmptyPopulation),
        params.total_population > 0 && (params.avg_connections.den == 0 || params.within_ratio.den == 0
            || influence_per_year.den == 0) ==> r == Err::<SimResult, SimError>(SimError::ZeroDenominator),
        params.wf() && influence_per_year.wf() <==> r.is_ok(),
        r matches Ok(res) ==> result_wf(res, *params),
        r matches Ok(res) ==> res.start_id as int == index_of(
            xorshift(seed_state(params.seed, entropy_lo, entropy_hi)),
            params.total_population as int,
        ),
        r.is_err() || params.total_population == 1 ==> final(observer).reports() == old(observer).reports(),
        final(observer).reports().len() >= old(observer).reports().len(),
        forall|k: int| 0 <= k < old(observer).reports().len() ==> #[trigger] final(observer).reports()[k] == old(observer).reports()[k],
        r matches Ok(res) ==> reports_ordered(final(observer).reports(), old(observer).reports().len() as int, res.years + 1, params.total_population as int),
        r matches Ok(res) ==> params.total_population > 1 ==> (res.years == 0 <==> start_isolated(
            params.avg_connections,
            params.within_ratio,
            params.total_population as int,
            res.start_id,
            xorshift(xorshift(seed_state(params.seed, entropy_lo, entropy_hi))),
        )),
        r matches Ok(res) ==> years_reported(final(observer).reports(), old(observer).reports().len() as int, res.yearly_state@),
{
    let ghost base = old(observer).reports().len() as int;
    if params.total_population == 0 {
        return Err(SimError::EmptyPopulation);
    }
    if params.avg_connections.den == 0 || params.within_ratio.den == 0 || influence_per_year.den == 0 {
        return Err(SimError::ZeroDenominator);
    }
    let mut rng = Rng::seeded(params.seed, entropy_lo, entropy_hi);
    let mut network = SocialNetwork::new(
        params.total_population,
        params.avg_connections,
        params.within_ratio,
    );
    let ghost n_int = params.total_population as int;
    let n = params.total_population as usize;
    let track = params.track_ancestors;
    let max_years = params.max_years;
    let rate_floor = (influence_per_year.num / influence_per_year.den) as u64;
    let mut influenced = cleared_flags(n);
    let mut next_set = cleared_flags(n);
    let mut next_vec: Vec<u32> = Vec::new();
    let progress_step = (n / 100) as u64;
    let mut next_progress_at: u64 = progress_step;
    let start = rng.next_index(n) as u32;
    influenced.set(start as usize, true);
    let mut influenced_count: usize = 1;
    let ghost mut infl: Set<int> = set![start as int];
    let mut active: Vec<u32> = Vec::new();
    active.push(start);
    let mut year: u32 = 0;
    let ghost s1 = rng.state;
    let ghost iso = start_isolated(params.avg_connections, params.within_ratio, n_int, start, xorshift(s1));
    let mut growth: Vec<YearlyState> = Vec::new();
    let mut end_reason = EndReason::EveryoneReached;
    let mut done = false;
    proof {
        lemma_int_range(0, n_int);
        assert(infl.len() == 1);
        assert(active@ =~= seq![start]);
    }
    while !done && !active.is_empty() && influenced_count < n
        invariant
            n == n_int,
            n_int == params.total_population,
            n > 0,
            track == params.track_ancestors,
            max_years == params.max_years,
            influence_per_year.wf(),
            rate_floor == influence_per_year.floor_spec(),
            progress_step <= n,
            network.wf(),
            network.total_population == params.total_population,
            set_int_range(0, n_int).finite(),
            set_int_range(0, n_int).len() == n_int,
            influenced@.len() == n,
            next_set@.len() == n,
            start < n,
            infl.finite(),
            infl.len() == influenced_count,
            infl.contains(start as int),
            forall|p: int| #[trigger] infl.contains(p) ==> 0 <= p < n,
            forall|p: int| 0 <= p < n ==> (#[trigger] influenced@[p] <==> infl.contains(p)),
            1 <= influenced_count <= n,
            forall|i: int| 0 <= i < active@.len() ==> #[trigger] active@[i] < n,
            !done ==> active@.len() > 0 || influenced_count == n,
            growth@.len() <= year,
            !done || end_reason == EndReason::MaxTime ==> growth@.len() == year,
            growth_monotone(growth@),
            forall|i: int| 0 <= i < growth@.len() ==> #[trigger] growth@[i].influenced < influenced_count,
            forall|i: int| 0 <= i < growth@.len() ==> (#[trigger] growth@[i].ancestors).is_some() == track,
            ancestry_wf(growth@, start),
            start as int == index_of(xorshift(seed_state(params.seed, entropy_lo, entropy_hi)), n_int),
            base == old(observer).reports().len(),
            observer.reports().len() >= base,
            forall|k: int| 0 <= k < base ==> #[trigger] observer.reports()[k] == old(observer).reports()[k],
            reports_ordered(observer.reports(), base, year as int, influenced_count as int),
            years_reported(observer.reports(), base, growth@),
            n == 1 ==> observer.reports() == old(observer).reports() && year == 0 && !done,
            year <= growth@.len() + 1,
            s1 == xorshift(seed_state(params.seed, entropy_lo, entropy_hi)),
            iso == start_isolated(params.avg_connections, params.within_ratio, n_int, start, xorshift(s1)),
            params.avg_connections == network.avg_connections,
            params.within_ratio == network.within_ratio,
            year == 0 ==> !done && active@ == seq![start] && rng.state == s1 && network.connection_cache@
                == Map::<u32, Vec<u32>>::empty() && infl == set![start as int],
            n > 1 && year >= 1 ==> (growth@.len() == 0 <==> iso),
            growth@.len() > 0 ==> growth@.last().influenced == influenced_count - 1,
            growth@.len() == 0 ==> influenced_count == 1,
            track ==> forall|i: int| 0 <= i < growth@.len() ==> #[trigger] edges(growth@[i]).len() == year_gain(growth@, i),
            forall|i: int, j: int|
                0 <= i < growth@.len() && 0 <= j < edges(growth@[i]).len() ==> (#[trigger] edges(growth@[i])[j]).0 < n,
            forall|i: int, j: int|
                0 <= i < growth@.len() && 0 <= j < edges(growth@[i]).len() ==> infl.contains(
                    (#[trigger] edges(growth@[i])[j]).1 as int,
                ),
            track ==> forall|p: int| #[trigger] infl.contains(p) ==> p == start || reached_before(growth@, growth@.len() as int, p as u32),
            track ==> forall|i: int| 0 <= i < active@.len() ==> #[trigger] active@[i] == start
                || reached_before(growth@, growth@.len() as int, active@[i]),
            !done ==> end_reason == EndReason::EveryoneReached && (year == 0 || year < max_years),
            done ==> (end_reason == EndReason::MaxTime && year >= 1 && (year == max_years || (max_years == 0 && year == 1)))
                || (end_reason == EndReason::NetworkSaturation && influenced_count < n && (growth@.len() < max_years || growth@.len() == 0)),
        decreases (if done { 0int } else { 1int }) + max_years - year + 2,
    {
        year = year + 1;
        let mut k: usize = 0;
        while k < n
            invariant
                k <= n,
                next_set@.len() == n,
                forall|j: int| 0 <= j < k ==> !#[trigger] next_set@[j],
            decreases n - k,
        {
            next_set.set(k, false);
            k = k + 1;
        }
        next_vec.clear();
        let mut exhausted = true;
        let ghost year_start_count = influenced_count;
        let mut anc: Vec<(u32, u32)> = Vec::new();
        proof {
            lemma_open_year(growth@, track, anc, start);
        }
        while !active.is_empty() && influenced_count < n
            invariant
                n == n_int,
                n_int == params.total_population,
                n > 0,
                track == params.track_ancestors,
                influence_per_year.wf(),
                rate_floor == influence_per_year.floor_spec(),
                progress_step <= n,
                network.wf(),
                network.total_population == params.total_population,
                set_int_range(0, n_int).finite(),
                set_int_range(0, n_int).len() == n_int,
                influenced@.len() == n,
                next_set@.len() == n,
                start < n,
                infl.finite(),
                infl.len() == influenced_count,
                infl.contains(start as int),
                forall|p: int| #[trigger] infl.contains(p) ==> 0 <= p < n,
                forall|p: int| 0 <= p < n ==> (#[trigger] influenced@[p] <==> infl.contains(p)),
                1 <= year_start_count <= influenced_count <= n,
                exhausted ==> influenced_count == year_start_count,
                !exhausted ==> next_vec@.len() > 0,
                1 <= year,
                year == growth@.len() + 1,
                iso == start_isolated(params.avg_connections, params.within_ratio, n_int, start, xorshift(s1)),
                params.avg_connections == network.avg_connections,
                params.within_ratio == network.within_ratio,
                year == 1 ==> (active@ == seq![start] && rng.state == s1 && network.connection_cache@
                    == Map::<u32, Vec<u32>>::empty() && infl == set![start as int] && exhausted) || (active@.len()
                    == 0 && (exhausted <==> iso)),
                (year - 1 == 0 || year - 1 < max_years),
                max_years == params.max_years,
                start as int == index_of(xorshift(seed_state(params.seed, entropy_lo, entropy_hi)), n_int),
                base == old(observer).reports().len(),
                observer.reports().len() >= base,
                forall|k: int| 0 <= k < base ==> #[trigger] observer.reports()[k] == old(observer).reports()[k],
                reports_ordered(observer.reports(), base, year as int, influenced_count as int),
                years_reported(observer.reports(), base, growth@),
                growth@.len() > 0 ==> growth@.last().influenced == year_start_count - 1,
                growth@.len() == 0 ==> year_start_count == 1,
                track ==> forall|i: int| 0 <= i < growth@.len() ==> #[trigger] edges(growth@[i]).len() == year_gain(growth@, i),
                forall|i: int, j: int|
                    0 <= i < growth@.len() + 1 && 0 <= j < edges(with_current(growth@, track, anc)[i]).len()
                        ==> (#[trigger] edges(with_current(growth@, track, anc)[i])[j]).0 < n,
                forall|p: int| 0 <= p < n && #[trigger] next_set@[p] ==> next_vec@.len() > 0,
                forall|i: int| 0 <= i < active@.len() ==> #[trigger] active@[i] < n,
                forall|i: int| 0 <= i < next_vec@.len() ==> #[trigger] next_vec@[i] < n,
                !track ==> anc@.len() == 0,
                track ==> anc@.len() == influenced_count - year_start_count,
                growth_monotone(growth@),
                forall|i: int| 0 <= i < growth@.len() ==> #[trigger] growth@[i].influenced < year_start_count,
                forall|i: int| 0 <= i < growth@.len() ==> (#[trigger] growth@[i].ancestors).is_some() == track,
                ancestry_wf(with_current(growth@, track, anc), start),
                forall|i: int, j: int|
                    0 <= i < growth@.len() + 1 && 0 <= j < edges(with_current(growth@, track, anc)[i]).len()
                        ==> infl.contains((#[trigger] edges(with_current(growth@, track, anc)[i])[j]).1 as int),
                track ==> forall|p: int| #[trigger] infl.contains(p) ==> p == start
                    || reached_before(with_current(growth@, track, anc), growth@.len() as int + 1, p as u32),
                track ==> forall|i: int| 0 <= i < active@.len() ==> #[trigger] active@[i] == start
                    || reached_before(growth@, growth@.len() as int, active@[i]),
                track ==> forall|i: int| 0 <= i < next_vec@.len() ==> #[trigger] next_vec@[i] == start
                    || reached_before(with_current(growth@, track, anc), growth@.len() as int + 1, next_vec@[i]),
            decreases n - influenced_count, active@.len(),
        {
            let reached = influenced_count as u64;
            if reached >= next_progress_at {
                next_progress_at = reached + progress_step;
                proof {
                    lemma_report(observer.reports(), base, growth@, year, reached as u32);
                }
                observer.on_progress(year, reached as u32);
            }
            let ghost first = year == 1 && active@ == seq![start] && rng.state == s1;
            let i = rng.next_index(active.len());
            let ghost before_active = active@;
            let influencer = active.swap_remove(i);
            proof {
                assert(before_active[i as int] == influencer);
                assert forall|j: int| 0 <= j < active@.len() implies before_active.contains(#[trigger] active@[j]) by {
                    if j == i {
                        assert(active@[j] == before_active[before_active.len() - 1]);
                    } else {
                        assert(active@[j] == before_active[j]);
                    }
                }
            }
            proof {
                lemma_current_prefix(growth@, track, anc);
            }
            let conns = network.get_connections(&mut rng, influencer);
            let mut available: Vec<u32> = Vec::new();
            let mut c: usize = 0;
            while c < conns.len()
                invariant
                    c <= conns@.len(),
                    id_list(conns@, n as int),
                    influenced@.len() == n,
                    forall|i: int| 0 <= i < available@.len() ==> #[trigger] available@[i] < n,
                    available@.len() == 0 <==> forall|j: int| 0 <= j < c ==> #[trigger] influenced@[conns@[j] as int],
                decreases conns@.len() - c,
            {
                let id = conns[c];
                if !influenced[id as usize] {
                    available.push(id);
                }
                c = c + 1;
            }
            proof {
                if first {
                    assert(influencer == start);
                    if available@.len() == 0 {
                        assert forall|t: u32| t != start implies !#[trigger] first_linked(
                            params.avg_connections,
                            params.within_ratio,
                            n_int,
                            start,
                            xorshift(s1),
                            t,
                        ) by {
                            if first_linked(params.avg_connections, params.within_ratio, n_int, start, xorshift(s1), t) {
                                assert(conns@.contains(t));
                                let j = choose|j: int| 0 <= j < conns@.len() && conns@[j] == t;
                                assert(influenced@[conns@[j] as int]);
                                assert(infl.contains(t as int));
                            }
                        }
                        assert(iso);
                    } else {
                        let j = choose|j: int| 0 <= j < conns@.len() && !#[trigger] influenced@[conns@[j] as int];
                        let t = conns@[j];
                        assert(conns@.contains(t));
                        assert(t != start);
                        assert(first_linked(params.avg_connections, params.within_ratio, n_int, start, xorshift(s1), t));
                        assert(!iso);
                    }
                }
            }
            if available.len() > 0 {
                exhausted = false;
            }
            let ghost mid_next_len = next_vec@.len();
            if (available.len() as u64) > rate_floor {
                if !next_set[influencer as usize] {
                    next_set.set(influencer as usize, true);
                    next_vec.push(influencer);
                }
            } else {
                network.clear_cache_of(influencer);
            }
            let to_influence = reach_count(&mut rng, influence_per_year, available.len());
            proof {
                assert(available@.len() > 0 ==> next_vec@.len() > 0 || to_influence > 0);
            }
            let ghost step_start_count = influenced_count;
            let mut t: usize = 0;
            while t < to_influence
                invariant
                    step_start_count <= influenced_count,
                    n == n_int,
                    n > 0,
                    track == params.track_ancestors,
                    set_int_range(0, n_int).finite(),
                    set_int_range(0, n_int).len() == n_int,
                    influenced@.len() == n,
                    next_set@.len() == n,
                    start < n,
                    infl.finite(),
                    infl.len() == influenced_count,
                    infl.contains(start as int),
                    forall|p: int| #[trigger] infl.contains(p) ==> 0 <= p < n,
                    forall|p: int| 0 <= p < n ==> (#[trigger] influenced@[p] <==> infl.contains(p)),
                    1 <= year_start_count <= influenced_count <= n,
                    to_influence > 0 ==> !exhausted,
                    exhausted ==> influenced_count == year_start_count,
                    !exhausted ==> next_vec@.len() > 0 || t < to_influence,
                    t <= to_influence,
                    to_influence - t <= available@.len(),
                    forall|p: int| 0 <= p < n && #[trigger] next_set@[p] ==> next_vec@.len() > 0,
                    forall|i: int| 0 <= i < available@.len() ==> #[trigger] available@[i] < n,
                    forall|i: int| 0 <= i < next_vec@.len() ==> #[trigger] next_vec@[i] < n,
                    !track ==> anc@.len() == 0,
                    track ==> anc@.len() == influenced_count - year_start_count,
                    influencer < n,
                    forall|i: int, j: int|
                        0 <= i < growth@.len() + 1 && 0 <= j < edges(with_current(growth@, track, anc)[i]).len()
                            ==> (#[trigger] edges(with_current(growth@, track, anc)[i])[j]).0 < n,
                    track ==> influencer == start || reached_before(growth@, growth@.len() as int, influencer),
                    ancestry_wf(with_current(growth@, track, anc), start),
                    forall|i: int, j: int|
                        0 <= i < growth@.len() + 1 && 0 <= j < edges(with_current(growth@, track, anc)[i]).len()
                            ==> infl.contains((#[trigger] edges(with_current(growth@, track, anc)[i])[j]).1 as int),
                    track ==> forall|p: int| #[trigger] infl.contains(p) ==> p == start
                        || reached_before(with_current(growth@, track, anc), growth@.len() as int + 1, p as u32),
                    track ==> forall|i: int| 0 <= i < next_vec@.len() ==> #[trigger] next_vec@[i] == start
                        || reached_before(with_current(growth@, track, anc), growth@.len() as int + 1, next_vec@[i]),
                decreases to_influence - t,
            {
                let j = rng.next_index(available.len());
                let ghost before_available = available@;
                let id = available.swap_remove(j);
                proof {
                    assert forall|k: int| 0 <= k < available@.len() implies #[trigger] available@[k] < n by {
                        if k == j {
                            assert(available@[k] == before_available[before_available.len() - 1]);
                        } else {
                            assert(available@[k] == before_available[k]);
                        }
                    }
                }
                if !influenced[id as usize] {
                    let ghost before_anc = anc;
                    let ghost before_infl = infl;
                    influenced.set(id as usize, true);
                    if track {
                        anc.push((influencer, id));
                        proof {
                            lemma_add_edge(growth@, before_anc, anc, start, influencer, id);
                        }
                    }
                    proof {
                        lemma_len_subset(infl.insert(id as int), set_int_range(0, n_int));
                        infl = infl.insert(id as int);
                    }
                    influenced_count = influenced_count + 1;
                    proof {
                        let w1 = with_current(growth@, track, before_anc);
                        let w2 = with_current(growth@, track, anc);
                        let l = growth@.len() as int;
                        assert forall|i: int, j: int|
                            0 <= i < l + 1 && 0 <= j < edges(w2[i]).len() implies infl.contains(
                                (#[trigger] edges(w2[i])[j]).1 as int,
                            ) && edges(w2[i])[j].0 < n by {
                            if i < l {
                                assert(w2[i] == w1[i]);
                                assert(edges(w1[i])[j] == edges(w2[i])[j]);
                            } else if j < edges(w1[l]).len() {
                                assert(edges(w1[l])[j] == edges(w2[l])[j]);
                            }
                        }
                    }
                }
                if !next_set[id as usize] {
                    next_set.set(id as usize, true);
                    next_vec.push(id);
                }
                t = t + 1;
            }
        }
        proof {
            lemma_current_prefix(growth@, track, anc);
        }
        if exhausted {
            proof {
                assert forall|i: int, j: int|
                    0 <= i < growth@.len() && 0 <= j < edges(growth@[i]).len() implies infl.contains(
                        (#[trigger] edges(growth@[i])[j]).1 as int,
                    ) && edges(growth@[i])[j].0 < n by {
                    assert(with_current(growth@, track, anc)[i] == growth@[i]);
                }
            }
            end_reason = EndReason::NetworkSaturation;
            done = true;
        } else {
            let ghost before_growth = growth@;
            let ancestors = if track {
                Some(anc)
            } else {
                None
            };
            growth.push(YearlyState::new((influenced_count - 1) as u32, ancestors));
            proof {
                let w = with_current(before_growth, track, anc);
                assert forall|i: int| 0 <= i < growth@.len() implies #[trigger] edges(growth@[i]) == edges(w[i]) by {
                    if i < before_growth.len() {
                        assert(growth@[i] == w[i]);
                    }
                }
                assert(same_edges(growth@, w));
                lemma_same_edges(growth@, w, start);
                assert forall|i: int, j: int|
                    0 <= i < growth@.len() && 0 <= j < edges(growth@[i]).len() implies infl.contains(
                        (#[trigger] edges(growth@[i])[j]).1 as int,
                    ) && edges(growth@[i])[j].0 < n by {
                    assert(edges(growth@[i]) == edges(w[i]));
                }
                if track {
                    assert forall|i: int| 0 <= i < growth@.len() implies #[trigger] edges(growth@[i]).len() == year_gain(growth@, i) by {
                        assert(edges(growth@[i]) == edges(w[i]));
                        if i < before_growth.len() {
                            assert(growth@[i] == before_growth[i]);
                            if i > 0 {
                                assert(growth@[i - 1] == before_growth[i - 1]);
                            }
                            assert(year_gain(growth@, i) == year_gain(before_growth, i));
                        } else {
                            assert(edges(w[i]) == anc@);
                            if i > 0 {
                                assert(growth@[i - 1] == before_growth[i - 1]);
                            }
                        }
                    }
                }
                lemma_report(observer.reports(), base, before_growth, year, influenced_count as u32);
                assert forall|i: int, j: int| 0 <= i <= j < growth@.len() implies #[trigger] growth@[i].influenced
                    <= #[trigger] growth@[j].influenced by {
                    if j < before_growth.len() {
                        assert(growth@[i] == before_growth[i] && growth@[j] == before_growth[j]);
                    } else if i < before_growth.len() {
                        assert(growth@[i] == before_growth[i]);
                    }
                }
            }
            observer.on_progress(year, influenced_count as u32);
            proof {
                assert(growth@ =~= before_growth.push(growth@.last()));
                lemma_year_reported(observer.reports(), base, before_growth, growth@.last());
            }
            active = next_vec.clone();
            proof {
                assert(active@ =~= next_vec@);
            }
            if year >= max_years {
                end_reason = EndReason::MaxTime;
                done = true;
            }
        }
    }
    let years = growth.len() as u32;
    let res = SimResult {
        years,
        people_reached: (influenced_count - 1) as u32,
        yearly_state: growth,
        end_reason,
        total_population: params.total_population,
        start_id: start,
    };
    proof {
        let ys = res.yearly_state@;
        assert(res.years == ys.len());
        assert(growth_monotone(ys));
        assert(forall|i: int| 0 <= i < ys.len() ==> #[trigger] ys[i].influenced <= res.people_reached);
        assert(forall|i: int| 0 <= i < ys.len() ==> (#[trigger] ys[i].ancestors).is_some() == params.track_ancestors);
        assert(ancestry_wf(ys, res.start_id));
        assert(res.end_reason == EndReason::EveryoneReached ==> res.people_reached == n - 1);
        assert(res.end_reason == EndReason::EveryoneReached ==> (res.years < params.max_years || res.years == 0));
        assert(res.people_reached == n - 1 && (res.years < params.max_years || res.years == 0) ==> res.end_reason == EndReason::EveryoneReached);
        assert(res.end_reason == EndReason::MaxTime ==> res.years == params.max_years || (params.max_years == 0 && res.years == 1));
        assert(res.end_reason == EndReason::NetworkSaturation ==> res.people_reached < n - 1);
    }
    Ok(res)
}

} // verus!
