use bywind::config::Topology;
use bywind::number::Real;
use bywind::route::WaypointCount;
use bywind::solution::{LoadError, SavedSolution};

fn r64(v: f64) -> Real {
    Real { bits: v.to_bits() }
}

fn saved(n: usize, points: usize) -> SavedSolution {
    let line: Vec<Real> = (0..points).map(|k| r64(k as f64)).collect();
    SavedSolution {
        n,
        xs: line.clone(),
        ys: line.iter().map(|v| r64(f64::from_bits(v.bits) * 0.5)).collect(),
        ts: line.iter().map(|v| r64(f64::from_bits(v.bits) * 100.0)).collect(),
        best_fit: r64(-1234.5),
        time_weight: r64(1.0),
        fuel_weight: r64(10.0),
        particles_space: 40,
        particles_time: 40,
        iter_space: 40,
        iter_time: 30,
        seed: None,
        topology: Topology::GBest,
        path_kick_probability: r64(0.1),
        path_kick_gamma_0_fraction: r64(0.05),
        path_kick_gamma_min_fraction: r64(0.005),
    }
}

#[test]
fn a_saved_path_comes_back() {
    let s = saved(5, 5);
    let (wc, e) = s.to_route_evolution().unwrap();
    assert_eq!(wc, WaypointCount::N5);
    assert_eq!(e.iter_count(), 1);
    for iter in [0, 7] {
        let g = e.gbest_at(iter).unwrap();
        assert_eq!(g.xs, &s.xs[..]);
        assert_eq!(g.ys, &s.ys[..]);
        assert_eq!(g.ts, &s.ts[..]);
        assert_eq!(g.best_fit, r64(-1234.5));
    }
}

#[test]
fn a_count_without_a_search_is_refused() {
    let e = saved(6, 6).to_route_evolution().unwrap_err();
    assert!(matches!(e, LoadError::UnsupportedWaypointCount(6)));
    assert_eq!(e.message(), "Unsupported waypoint count 6 in saved solution");
}

#[test]
fn missing_numbers_are_refused() {
    let mut s = saved(5, 5);
    s.ys.pop();
    let e = s.to_route_evolution().unwrap_err();
    assert!(matches!(e, LoadError::LengthMismatch { n: 5, xs: 5, ys: 4, ts: 5 }));
    assert_eq!(e.message(), "Saved solution arrays do not match n=5: xs=5, ys=4, ts=5");
}
