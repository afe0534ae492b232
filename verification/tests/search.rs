use bywind::metrics::{compute_segment_metrics, SegmentMetrics};
use bywind::number::Real;
use bywind::route::{BenchmarkRoute, Particle, RouteEvolution, WaypointCount};
use bywind::search::{
    benchmark_along, land_tier, EnsembleSpread, LandTier, MemberMetrics, MetricField, Realizations, SearchAsk,
    SearchError, SearchPhase, SearchProgressEvent, SearchRun, SwarmResult,
};

fn r64(v: f64) -> Real {
    Real { bits: v.to_bits() }
}

fn num(v: Real) -> f64 {
    f64::from_bits(v.bits)
}

fn particle(fit: f64) -> Particle {
    let line: Vec<Real> = (0..5).map(|k| r64(k as f64)).collect();
    Particle { xs: line.clone(), ys: line.clone(), ts: line, best_fit: r64(fit) }
}

fn evolution(fit: f64) -> RouteEvolution {
    RouteEvolution::from_frames(
        WaypointCount::N5,
        vec![vec![particle(-9.0)], vec![particle(fit), particle(-8.0)]],
    )
}

fn found(fit: f64) -> SwarmResult {
    SwarmResult { evolution: evolution(fit), best_fit: r64(fit), land_m: r64(12.0) }
}

fn benchmark() -> BenchmarkRoute {
    BenchmarkRoute {
        waypoints: vec![(r64(1.0), r64(2.0))],
        total_time: r64(3.0),
        total_fuel: r64(4.0),
        total_land_metres: r64(0.0),
        fitness: r64(-5.0),
    }
}

fn names(list: &[&str]) -> Vec<String> {
    list.iter().map(|s| (*s).to_owned()).collect()
}

#[test]
fn phases_have_labels() {
    assert_eq!(SearchPhase::Loading.label(), "loading wind data…");
    assert_eq!(SearchPhase::Baking.label(), "baking wind grid…");
    assert_eq!(SearchPhase::Benchmark.label(), "computing benchmark…");
    assert_eq!(SearchPhase::RunningPso.label(), "searching…");
}

#[test]
fn a_search_in_one_wind_runs_through() {
    let (mut run, first) = SearchRun::begin(60, WaypointCount::N5, None);
    assert!(matches!(first, SearchProgressEvent::Phase(SearchPhase::Benchmark)));
    assert_eq!(run.ask(), SearchAsk::Benchmark);
    let events = run.on_benchmark(Some(benchmark()));
    assert_eq!(events.len(), 2);
    match &events[0] {
        SearchProgressEvent::BenchmarkReady(b) => assert_eq!(b.waypoints, vec![(r64(1.0), r64(2.0))]),
        other => panic!("{other:?}"),
    }
    assert!(matches!(events[1], SearchProgressEvent::Phase(SearchPhase::RunningPso)));
    assert_eq!(run.ask(), SearchAsk::Swarm);
    for k in 0..60 {
        match run.on_iteration(&particle(-2.0)) {
            SearchProgressEvent::Iteration { iter_idx, total_iters, gbest_xs, best_fit, .. } => {
                assert_eq!((iter_idx, total_iters, best_fit), (k, 60, r64(-2.0)));
                assert_eq!(gbest_xs.len(), 5);
            },
            other => panic!("{other:?}"),
        }
    }
    run.on_swarm(found(-1.0));
    assert_eq!(run.ask(), SearchAsk::Finish);
    let Ok(out) = run.finish() else { panic!("a route was found") };
    assert_eq!(out.route_evolution.iter_count(), 2);
    assert_eq!(out.benchmark.unwrap().fitness, r64(-5.0));
    assert!(out.ensemble.is_none());
}

#[test]
fn without_a_way_by_sea_there_is_no_benchmark() {
    let (mut run, _) = SearchRun::begin(1, WaypointCount::N5, None);
    let events = run.on_benchmark(None);
    assert_eq!(events.len(), 1);
    assert!(matches!(events[0], SearchProgressEvent::Phase(SearchPhase::RunningPso)));
}

#[test]
fn every_member_of_an_ensemble_judges() {
    let (mut run, _) = SearchRun::begin(1, WaypointCount::N5, Some(names(&["gec00", "gep01"])));
    run.on_benchmark(None);
    run.on_iteration(&particle(-1.0));
    run.on_swarm(found(-1.0));
    for k in 0..2 {
        assert_eq!(run.ask(), SearchAsk::Member(k));
        run.on_member(r64(100.0 + k as f64), r64(7.0), r64(-1.5));
    }
    assert_eq!(run.ask(), SearchAsk::Finish);
    let Ok(out) = run.finish() else { panic!("a route was found") };
    let spread = out.ensemble.unwrap();
    let told: Vec<(String, f64, f64)> =
        spread.per_member.iter().map(|m| (m.name.clone(), num(m.time_s), num(m.land_m))).collect();
    assert_eq!(told, vec![("gec00".to_owned(), 100.0, 12.0), ("gep01".to_owned(), 101.0, 12.0)]);
    assert_eq!(stats(&spread, MetricField::Time), (100.5, 100.0, 101.0, 0.5));
}

#[test]
fn a_route_that_cannot_be_sailed_is_an_error() {
    for fit in [f64::NEG_INFINITY, f64::NAN] {
        let (mut run, _) = SearchRun::begin(1, WaypointCount::N5, None);
        run.on_benchmark(None);
        run.on_iteration(&particle(fit));
        run.on_swarm(found(fit));
        match run.finish() {
            Err(SearchError::NoFeasibleRoute { best_fit }) => assert_eq!(best_fit, r64(fit)),
            Ok(_) => panic!("no route"),
        }
    }
    let words = SearchError::NoFeasibleRoute { best_fit: r64(f64::NEG_INFINITY) }
        .message(&|v: Real| format!("{}", num(v)));
    assert_eq!(
        words,
        "search produced no feasible route (best_fit = -inf) — \
         every candidate path had at least one segment the boat can't \
         traverse in the given wind. Try widening the route bounds, \
         relaxing the boat polar, or moving the endpoints out of any \
         pole-locked region."
    );
}

#[test]
fn fine_land_is_known_only_where_asked_for() {
    assert_eq!(land_tier(r64(0.5), None), LandTier::Single(r64(0.5)));
    assert_eq!(
        land_tier(r64(0.5), Some(r64(0.1))),
        LandTier::TwoTier { coarse: r64(0.5), fine: r64(0.1) }
    );
}

fn stats(spread: &EnsembleSpread, field: MetricField) -> (f64, f64, f64, f64) {
    let (mean, least, greatest, deviation) = spread.stats(
        field,
        &|a: Real, b: Real| r64(num(a) + num(b)),
        &|v: Real, n: usize| r64(num(v) / n as f64),
        &|v: Real, mean: Real| r64((num(v) - num(mean)).powi(2)),
        &|v: Real| r64(num(v).sqrt()),
    );
    (num(mean), num(least), num(greatest), num(deviation))
}

#[test]
fn costs_have_statistics() {
    let metrics = |time: f64, fitness: f64| MemberMetrics {
        name: "gec00".to_owned(),
        time_s: r64(time),
        fuel_kg: r64(2.0),
        land_m: r64(3.0),
        fitness: r64(fitness),
    };
    let spread = EnsembleSpread {
        per_member: vec![metrics(2.0, -3.0), metrics(4.0, f64::NAN), metrics(6.0, -1.0), metrics(8.0, -2.0)],
    };
    assert_eq!(stats(&spread, MetricField::Time), (5.0, 2.0, 8.0, 5.0f64.sqrt()));
    assert_eq!(stats(&spread, MetricField::Fuel), (2.0, 2.0, 2.0, 0.0));
    assert_eq!(stats(&spread, MetricField::Land), (3.0, 3.0, 3.0, 0.0));
    let (mean, least, greatest, _) = stats(&spread, MetricField::Fitness);
    assert!(mean.is_nan());
    assert_eq!((least, greatest), (-3.0, -1.0));
    let (mean, least, greatest, deviation) =
        stats(&EnsembleSpread { per_member: Vec::new() }, MetricField::Time);
    assert!(mean.is_nan() && least.is_nan() && greatest.is_nan() && deviation.is_nan());
}

#[test]
fn benchmarks_add_their_legs_up() {
    let raw = vec![(r64(0.1), r64(10.0), r64(100.0)), (r64(0.2), r64(5.0), r64(50.0))];
    let land = vec![r64(0.0), r64(7.0)];
    let b = benchmark_along(
        vec![(r64(1.0), r64(2.0))],
        &raw,
        &land,
        r64(-4.0),
        &|a: Real, b: Real| r64(num(a) + num(b)),
    );
    assert_eq!((num(b.total_time), num(b.total_fuel)), (150.0, 15.0));
    assert_eq!((num(b.total_land_metres), num(b.fitness)), (7.0, -4.0));
    assert_eq!(b.waypoints, vec![(r64(1.0), r64(2.0))]);
}

#[test]
fn realizations_have_seeds_of_their_own() {
    let mut all = Realizations::begin(names(&["gec00", "gep01"]), u64::MAX);
    assert_eq!(all.pending(), Some((0, u64::MAX)));
    all = match all.on_result(Ok((evolution(-1.0), Vec::new()))) {
        Ok(next) => next,
        Err(e) => panic!("{e:?}"),
    };
    assert_eq!(all.pending(), Some((1, 0)));
    all = match all.on_result(Ok((evolution(-20.0), Vec::new()))) {
        Ok(next) => next,
        Err(e) => panic!("{e:?}"),
    };
    assert_eq!(all.pending(), None);
    let told: Vec<(String, f64)> = all.runs.iter().map(|r| (r.name.clone(), num(r.fitness))).collect();
    assert_eq!(told, vec![("gec00".to_owned(), -1.0), ("gep01".to_owned(), -8.0)]);
}

#[test]
fn the_first_failure_ends_all_realizations() {
    let all = Realizations::begin(names(&["gec00", "gep01"]), 5);
    let e = SearchError::NoFeasibleRoute { best_fit: r64(f64::NAN) };
    assert!(matches!(all.on_result(Err(e)), Err(f) if f == e));
}

#[test]
fn legs_without_time_have_no_speed() {
    let raw = vec![(r64(0.5), r64(10.0), r64(2.0)), (r64(0.25), r64(1.0), r64(0.0))];
    let xs: Vec<Real> = [0.0, 3.0, 3.0].iter().map(|v| r64(*v)).collect();
    let ys: Vec<Real> = [0.0, 4.0, 4.0].iter().map(|v| r64(*v)).collect();
    let speed = |a: (Real, Real), b: (Real, Real), t: Real| {
        let (dx, dy) = (num(b.0) - num(a.0), num(b.1) - num(a.1));
        r64((dx * dx + dy * dy).sqrt() / num(t) * 3.6)
    };
    let land = |a: (Real, Real), _: (Real, Real)| r64(num(a.0) + 1.0);
    let legs: Vec<SegmentMetrics> = compute_segment_metrics(&raw, &xs, &ys, &speed, &land);
    assert_eq!(legs.len(), 2);
    assert_eq!(num(legs[0].speed_kmh), 9.0);
    assert_eq!(num(legs[1].speed_kmh), 0.0);
    assert_eq!((num(legs[0].mcr_01), num(legs[0].fuel), num(legs[0].time)), (0.5, 10.0, 2.0));
    assert_eq!((num(legs[0].land_metres), num(legs[1].land_metres)), (1.0, 4.0));
}
