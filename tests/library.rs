use influence_sim::diffusion::simulate;
use influence_sim::engine::{
    reach_count, EndReason, ProgressLog, ProgressObserver, SimResult, YearlyState,
};
use influence_sim::network::SocialNetwork;
use influence_sim::params::{Rational, SimError, SimParams};
use influence_sim::rng::Rng;

fn params(
    total_population: u32,
    avg: Rational,
    ratio: Rational,
    max_years: u32,
    track: bool,
    seed: Option<u64>,
) -> SimParams {
    SimParams {
        total_population,
        avg_connections: avg,
        within_ratio: ratio,
        max_years,
        track_ancestors: track,
        seed,
    }
}

fn run(p: &SimParams, rate: Rational) -> (Result<SimResult, SimError>, Vec<(u32, u32)>) {
    let mut log = ProgressLog::new();
    let r = simulate(rate, p, 0, 0, &mut log);
    (r, log.reports)
}

#[test]
fn it_works() {
    let result = influence_sim::add(2, 2);
    assert_eq!(result, 4);
}

#[test]
fn seed_sets_low_bit() {
    assert_eq!(Rng::from_seed(42).state, 43);
    assert_eq!(Rng::from_seed(0).state, 1);
    assert_eq!(Rng::seeded(Some(42), 9, 9).state, 43);
}

#[test]
fn entropy_words_combine() {
    assert_eq!(Rng::from_entropy(7, 5).state, (5u64 << 32) | 7 | 1);
    assert_eq!(Rng::seeded(None, 6, 5).state, (5u64 << 32) | 7);
}

#[test]
fn xorshift_sequence() {
    let mut rng = Rng::from_seed(42);
    assert_eq!(rng.next_u64(), 46537075435);
    assert_eq!(rng.next_u64(), 12685210767805585150);
    assert_eq!(rng.state, 12685210767805585150);
}

#[test]
fn index_is_high_word_of_product() {
    let mut rng = Rng::from_seed(42);
    assert_eq!(rng.next_index(10), 0);
    assert_eq!(rng.next_index(1000), 687);
    assert_eq!(rng.next_index(1000), 62);
}

#[test]
fn chance_bounds() {
    let mut rng = Rng::from_seed(7);
    for _ in 0..200 {
        assert!(!rng.chance(0, 1));
        assert!(rng.chance(1, 1));
    }
}

#[test]
fn chance_matches_top_bits() {
    let mut a = Rng::from_seed(42);
    let mut b = Rng::from_seed(42);
    for _ in 0..100 {
        let x = b.next_u64();
        let unit = (x >> 11) as f64 / (1u64 << 53) as f64;
        assert_eq!(a.chance(3, 10), unit < 0.3);
    }
}

#[test]
fn whole_counts_need_no_rounding() {
    let net = SocialNetwork::new(100, Rational::new(4, 1), Rational::new(1, 2));
    let mut rng = Rng::from_seed(3);
    for _ in 0..50 {
        assert_eq!(net.get_connection_counts(&mut rng), (2, 2));
    }
}

#[test]
fn between_is_rounded_up() {
    let net = SocialNetwork::new(100, Rational::new(5, 2), Rational::new(0, 1));
    let mut rng = Rng::from_seed(3);
    assert_eq!(net.get_connection_counts(&mut rng), (0, 3));
}

#[test]
fn within_rounds_by_its_fraction() {
    let net = SocialNetwork::new(100, Rational::new(3, 1), Rational::new(1, 2));
    let mut rng = Rng::from_seed(11);
    let mut ups = 0u32;
    let draws = 20000u32;
    for _ in 0..draws {
        let (within, between) = net.get_connection_counts(&mut rng);
        assert!(within == 1 || within == 2);
        assert_eq!(between, 3 - within);
        if within == 2 {
            ups += 1;
        }
    }
    let share = ups as f64 / draws as f64;
    assert!(share > 0.47 && share < 0.53, "share {}", share);
}

#[test]
fn ring_neighbours_wrap_around() {
    let mut net = SocialNetwork::new(10, Rational::new(4, 1), Rational::new(1, 1));
    let mut rng = Rng::from_seed(5);
    let mut conns = net.get_connections(&mut rng, 0);
    conns.sort();
    assert_eq!(conns, vec![1, 2, 8, 9]);
}

#[test]
fn cached_neighbours_draw_nothing() {
    let mut net = SocialNetwork::new(50, Rational::new(6, 1), Rational::new(1, 3));
    let mut rng = Rng::from_seed(5);
    let first = net.get_connections(&mut rng, 7);
    let state = rng.state;
    let second = net.get_connections(&mut rng, 7);
    assert_eq!(first, second);
    assert_eq!(rng.state, state);
    assert!(net.connection_cache.contains_key(&7));
    net.clear_cache_of(7);
    assert!(!net.connection_cache.contains_key(&7));
    net.get_connections(&mut rng, 7);
    assert_ne!(rng.state, state);
}

#[test]
fn neighbours_are_distinct_and_in_range() {
    let mut net = SocialNetwork::new(5, Rational::new(20, 1), Rational::new(1, 4));
    let mut rng = Rng::from_seed(9);
    for id in 0..5u32 {
        let conns = net.get_connections(&mut rng, id);
        let mut sorted = conns.clone();
        sorted.sort();
        sorted.dedup();
        assert_eq!(sorted.len(), conns.len());
        assert!(conns.iter().all(|&c| c < 5));
    }
}

#[test]
fn empty_population_is_refused() {
    let p = params(0, Rational::new(4, 1), Rational::new(1, 2), 10, false, Some(1));
    let (r, calls) = run(&p, Rational::new(2, 1));
    assert_eq!(r, Err(SimError::EmptyPopulation));
    assert!(calls.is_empty());
}

#[test]
fn zero_denominator_is_refused() {
    let p = params(10, Rational::new(4, 0), Rational::new(1, 2), 10, false, Some(1));
    assert_eq!(run(&p, Rational::new(2, 1)).0, Err(SimError::ZeroDenominator));
    let p = params(10, Rational::new(4, 1), Rational::new(1, 2), 10, false, Some(1));
    assert_eq!(run(&p, Rational::new(2, 0)).0, Err(SimError::ZeroDenominator));
}

#[test]
fn single_person_is_everyone() {
    let p = params(1, Rational::new(4, 1), Rational::new(1, 2), 50, true, Some(42));
    let r = run(&p, Rational::new(2, 1)).0.unwrap();
    assert_eq!(r.people_reached, 0);
    assert_eq!(r.years, 0);
    assert_eq!(r.end_reason, EndReason::EveryoneReached);
    assert!(r.yearly_state.is_empty());
    assert_eq!(r.start_id, 0);
    assert_eq!(r.total_population, 1);
    let (_, calls) = run(&p, Rational::new(2, 1));
    assert!(calls.is_empty());
}

#[test]
fn seeded_runs_repeat() {
    let p = params(10, Rational::new(4, 1), Rational::new(1, 2), 50, true, Some(42));
    let (a, calls_a) = run(&p, Rational::new(2, 1));
    let (b, calls_b) = run(&p, Rational::new(2, 1));
    let (a, b) = (a.unwrap(), b.unwrap());
    assert_eq!(a.yearly_state, b.yearly_state);
    assert_eq!(a.end_reason, b.end_reason);
    assert_eq!(a.start_id, b.start_id);
    assert_eq!(a, b);
    assert_eq!(calls_a, calls_b);
    assert_eq!(a.start_id, 0);
}

#[test]
fn larger_seeded_runs_repeat() {
    let p = params(2000, Rational::new(7, 2), Rational::new(3, 5), 30, true, Some(99));
    let a = run(&p, Rational::new(3, 2)).0.unwrap();
    let b = run(&p, Rational::new(3, 2)).0.unwrap();
    assert_eq!(a, b);
}

fn assert_result_bounds(r: &SimResult, p: &SimParams) {
    let n = p.total_population;
    assert_eq!(r.years as usize, r.yearly_state.len());
    assert!(r.people_reached <= n - 1);
    let share = (r.people_reached + 1) as f64 / n as f64;
    assert!(share >= 0.0 && share <= 1.0);
    for w in r.yearly_state.windows(2) {
        assert!(w[0].influenced <= w[1].influenced);
    }
    match r.end_reason {
        EndReason::EveryoneReached => assert_eq!(r.people_reached, n - 1),
        EndReason::MaxTime => assert_eq!(r.years, p.max_years),
        EndReason::NetworkSaturation => assert!(r.people_reached < n - 1),
    }
    let mut reached_year = vec![None; n as usize];
    reached_year[r.start_id as usize] = Some(0usize);
    for (i, y) in r.yearly_state.iter().enumerate() {
        let year = i + 1;
        let edges = y.ancestors.as_ref().expect("tracked");
        for &(u, v) in edges {
            let uy = reached_year[u as usize].expect("influencer reached before");
            assert!(uy < year);
            assert!(reached_year[v as usize].is_none());
            reached_year[v as usize] = Some(year);
        }
    }
    let via_edges = reached_year.iter().filter(|y| y.is_some()).count() as u32;
    assert_eq!(via_edges, r.people_reached + 1);
}

#[test]
fn results_keep_their_bounds() {
    for seed in 1..6u64 {
        let p = params(500, Rational::new(6, 1), Rational::new(1, 2), 40, true, Some(seed));
        let r = run(&p, Rational::new(5, 4)).0.unwrap();
        assert_result_bounds(&r, &p);
    }
}

#[test]
fn small_network_reaches_everyone() {
    let p = params(10, Rational::new(4, 1), Rational::new(1, 2), 50, true, Some(42));
    let r = run(&p, Rational::new(2, 1)).0.unwrap();
    assert_result_bounds(&r, &p);
    assert_eq!(r.end_reason, EndReason::EveryoneReached);
    assert_eq!(r.people_reached, 9);
}

#[test]
fn year_limit_stops_the_run() {
    let p = params(100000, Rational::new(4, 1), Rational::new(1, 2), 1, true, Some(8));
    let r = run(&p, Rational::new(1, 1)).0.unwrap();
    assert_result_bounds(&r, &p);
    assert_eq!(r.end_reason, EndReason::MaxTime);
    assert_eq!(r.years, 1);
}

#[test]
fn no_ties_saturates_at_once() {
    let p = params(5, Rational::new(0, 1), Rational::new(1, 2), 10, true, Some(8));
    let (r, calls) = run(&p, Rational::new(2, 1));
    let r = r.unwrap();
    assert_eq!(r.end_reason, EndReason::NetworkSaturation);
    assert_eq!(r.years, 0);
    assert_eq!(r.people_reached, 0);
    assert!(calls.iter().all(|&(year, _)| year == 1));
}

#[test]
fn untracked_runs_record_no_pairs() {
    let p = params(300, Rational::new(5, 1), Rational::new(1, 2), 20, false, Some(4));
    let r = run(&p, Rational::new(2, 1)).0.unwrap();
    assert!(r.yearly_state.iter().all(|y| y.ancestors.is_none()));
}

#[test]
fn each_year_ends_with_a_report() {
    let p = params(300, Rational::new(5, 1), Rational::new(1, 2), 20, false, Some(4));
    let (r, calls) = run(&p, Rational::new(2, 1));
    let r = r.unwrap();
    for (i, y) in r.yearly_state.iter().enumerate() {
        assert!(calls.contains(&((i + 1) as u32, y.influenced + 1)));
    }
}

#[test]
fn fractional_rate_spreads() {
    let p = params(400, Rational::new(6, 1), Rational::new(1, 2), 200, true, Some(21));
    let r = run(&p, Rational::new(1, 2)).0.unwrap();
    assert_result_bounds(&r, &p);
    assert!(r.people_reached > 0);
}

#[test]
fn yearly_state_keeps_its_fields() {
    let y = YearlyState::new(3, Some(vec![(0, 1)]));
    assert_eq!(y.influenced, 3);
    assert_eq!(y.ancestors, Some(vec![(0, 1)]));
}

#[test]
fn reach_count_rounds_only_fractional_rates() {
    let mut rng = Rng::from_seed(42);
    assert_eq!(reach_count(&mut rng, Rational::new(2, 1), 5), 2);
    assert_eq!(reach_count(&mut rng, Rational::new(5, 2), 1), 1);
    assert_eq!(reach_count(&mut rng, Rational::new(5, 2), 0), 0);
    assert_eq!(rng.state, 43);
    let mut seen = [false; 2];
    for _ in 0..200 {
        let k = reach_count(&mut rng, Rational::new(5, 2), 10);
        assert!(k == 2 || k == 3);
        seen[k - 2] = true;
    }
    assert!(seen[0] && seen[1]);
    let mut a = Rng::from_seed(42);
    let mut b = Rng::from_seed(42);
    let up = b.chance(1, 2);
    assert_eq!(reach_count(&mut a, Rational::new(5, 2), 10), if up { 3 } else { 2 });
}

#[test]
fn example_run_outcome() {
    let p = params(10, Rational::new(4, 1), Rational::new(1, 2), 50, true, Some(42));
    let mut log = ProgressLog::new();
    let r = simulate(Rational::new(2, 1), &p, 0, 0, &mut log).unwrap();
    assert_eq!(r.start_id, 0);
    assert_eq!(r.end_reason, EndReason::EveryoneReached);
    assert_eq!(r.people_reached, 9);
    assert_eq!(r.yearly_state[0].influenced, 2);
    let first = r.yearly_state[0].ancestors.as_ref().unwrap();
    assert_eq!(first.len(), 2);
    assert!(first.iter().all(|&(u, _)| u == 0));
    assert_eq!(log.reports[0], (1, 1));
    assert_eq!(*log.reports.last().unwrap(), (r.years, 10));
}

#[test]
fn refused_input_reports_nothing() {
    let p = params(10, Rational::new(4, 0), Rational::new(1, 2), 10, true, None);
    let mut log = ProgressLog::new();
    assert_eq!(simulate(Rational::new(2, 1), &p, 3, 4, &mut log), Err(SimError::ZeroDenominator));
    assert!(log.reports.is_empty());
}

#[test]
fn zero_year_limit_runs_one_year() {
    let p = params(1000, Rational::new(4, 1), Rational::new(1, 2), 0, false, Some(5));
    let r = run(&p, Rational::new(1, 1)).0.unwrap();
    assert_eq!(r.end_reason, EndReason::MaxTime);
    assert_eq!(r.years, 1);
}

#[test]
fn reports_never_fall() {
    let p = params(1000, Rational::new(6, 1), Rational::new(1, 2), 30, false, Some(17));
    let (r, calls) = run(&p, Rational::new(3, 2));
    let r = r.unwrap();
    for w in calls.windows(2) {
        assert!(w[0].0 <= w[1].0 && w[0].1 <= w[1].1);
    }
    assert!(calls.iter().all(|&(y, c)| y >= 1 && y <= r.years + 1 && c >= 1 && c <= 1000));
}

#[test]
fn tracked_pairs_match_growth() {
    let p = params(800, Rational::new(5, 1), Rational::new(2, 5), 40, true, Some(23));
    let r = run(&p, Rational::new(2, 1)).0.unwrap();
    let mut prev = 0;
    for y in &r.yearly_state {
        let pairs = y.ancestors.as_ref().unwrap();
        assert_eq!(pairs.len() as u32, y.influenced - prev);
        assert!(pairs.iter().all(|&(u, v)| u < 800 && v < 800));
        prev = y.influenced;
    }
    assert_eq!(prev, r.people_reached);
}

#[test]
fn log_keeps_reports_in_order() {
    let mut log = ProgressLog::new();
    use_observer(&mut log);
    assert_eq!(log.reports, vec![(1, 2), (2, 5)]);
}

fn use_observer<O: ProgressObserver>(o: &mut O) {
    o.on_progress(1, 2);
    o.on_progress(2, 5);
}
