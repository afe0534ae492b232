use bywind::number::Real;
use bywind::route::{Particle, RouteEvolution, WaypointCount};

fn r64(v: f64) -> Real {
    Real { bits: v.to_bits() }
}

fn reals(v: &[f64]) -> Vec<Real> {
    v.iter().map(|x| r64(*x)).collect()
}

fn particle(start: f64, fit: f64) -> Particle {
    let line: Vec<Real> = (0..5).map(|k| r64(start + k as f64)).collect();
    Particle { xs: line.clone(), ys: line.clone(), ts: line, best_fit: r64(fit) }
}

fn plus(a: Real, b: Real) -> Real {
    r64(f64::from_bits(a.bits) + f64::from_bits(b.bits))
}

#[test]
fn waypoint_count_round_trips_through_usize() {
    for &wc in &WaypointCount::ALL {
        let n = wc.as_usize();
        assert_eq!(WaypointCount::from_usize(n), Some(wc));
    }
}

#[test]
fn waypoint_count_rejects_unsupported_n() {
    for unsupported in [0, 1, 7, 11, 25, 45, 100] {
        assert_eq!(WaypointCount::from_usize(unsupported), None, "n={unsupported}");
    }
}

#[test]
fn waypoint_count_default_is_n30() {
    assert_eq!(WaypointCount::default().as_usize(), 30);
}

#[test]
fn waypoint_count_all_is_sorted_and_complete() {
    let sizes: Vec<usize> = WaypointCount::ALL.iter().map(|wc| wc.as_usize()).collect();
    assert_eq!(sizes, vec![5, 8, 10, 15, 20, 30, 40, 50, 60]);
}

#[test]
fn the_best_of_an_iteration_is_the_last_greatest() {
    let e = RouteEvolution::from_frames(
        WaypointCount::N5,
        vec![
            vec![particle(0.0, -3.0), particle(10.0, -1.0), particle(20.0, -1.0), particle(30.0, -2.0)],
            vec![particle(40.0, -0.5)],
        ],
    );
    assert_eq!(e.iter_count(), 2);
    assert_eq!(e.waypoint_count(), WaypointCount::N5);
    let first = e.gbest_at(0).unwrap();
    assert_eq!(first.xs[0], r64(20.0));
    assert_eq!(first.best_fit, r64(-1.0));
    // Beyond the last iteration the last one counts.
    assert_eq!(e.gbest_at(9).unwrap().xs[0], r64(40.0));
}

#[test]
fn a_nan_counts_as_good_as_what_it_is_held_against() {
    let e = RouteEvolution::from_frames(
        WaypointCount::N5,
        vec![vec![particle(0.0, 5.0), particle(10.0, f64::NAN), particle(20.0, 1.0)]],
    );
    assert_eq!(e.gbest_at(0).unwrap().xs[0], r64(20.0));
}

#[test]
fn an_empty_iteration_has_no_best() {
    let e = RouteEvolution::from_frames(WaypointCount::N5, vec![]);
    assert!(e.gbest_at(0).is_none());
    let e = RouteEvolution::from_frames(WaypointCount::N5, vec![vec![particle(0.0, 1.0)], vec![]]);
    assert!(e.gbest_at(1).is_none());
    assert!(e.gbest_at(0).is_some());
}

#[test]
fn waypoints_of_the_best_path_are_moved() {
    let mut e = RouteEvolution::from_frames(
        WaypointCount::N5,
        vec![vec![particle(0.0, 1.0), particle(10.0, 2.0)]],
    );
    e.mutate_waypoint(0, 2, r64(0.5), r64(-0.5), &plus);
    let g = e.gbest_at(0).unwrap();
    assert_eq!(g.xs, &reals(&[10.0, 11.0, 12.5, 13.0, 14.0])[..]);
    assert_eq!(g.ys, &reals(&[10.0, 11.0, 11.5, 13.0, 14.0])[..]);
    assert_eq!(g.best_fit, r64(2.0));
    // No such waypoint: nothing changes.
    e.mutate_waypoint(0, 5, r64(1.0), r64(1.0), &plus);
    assert_eq!(e.gbest_at(0).unwrap().xs, &reals(&[10.0, 11.0, 12.5, 13.0, 14.0])[..]);
}

#[test]
fn times_are_replaced_only_where_there_are_as_many() {
    let mut e = RouteEvolution::from_frames(WaypointCount::N5, vec![vec![particle(0.0, 1.0)]]);
    e.apply_reopt_times(0, &reals(&[9.0, 8.0]));
    assert_eq!(e.gbest_at(0).unwrap().ts, &reals(&[0.0, 1.0, 2.0, 3.0, 4.0])[..]);
    e.apply_reopt_times(0, &reals(&[9.0, 8.0, 7.0, 6.0, 5.0]));
    assert_eq!(e.gbest_at(0).unwrap().ts, &reals(&[9.0, 8.0, 7.0, 6.0, 5.0])[..]);
}

#[test]
fn the_first_nan_is_told_of() {
    let good = vec![particle(0.0, 1.0)];
    let e = RouteEvolution::from_frames(WaypointCount::N5, vec![good]);
    assert_eq!(e.find_nan(), None);

    let mut bad = particle(0.0, 1.0);
    bad.ys[3] = r64(f64::NAN);
    bad.ts[0] = r64(f64::NAN);
    assert_eq!(bad.path_nan("gbest.best_pos"), Some("NaN in gbest.best_pos: y[3]".to_owned()));
    let e = RouteEvolution::from_frames(
        WaypointCount::N5,
        vec![vec![particle(0.0, 1.0)], vec![particle(0.0, 1.0), bad]],
    );
    assert_eq!(e.find_nan(), Some("NaN in evolution[1][1].best_pos: y[3]".to_owned()));

    let e = RouteEvolution::from_frames(
        WaypointCount::N5,
        vec![vec![particle(0.0, 1.0), particle(0.0, f64::NAN)]],
    );
    assert_eq!(e.find_nan(), Some("NaN in evolution[0][1]: best_fit".to_owned()));
}

#[test]
fn the_best_path_can_be_written_to() {
    let line = |v: f64| -> Vec<Real> { (0..5).map(|k| Real { bits: (v + k as f64).to_bits() }).collect() };
    let particle = |v: f64, fit: f64| Particle {
        xs: line(v),
        ys: line(v),
        ts: line(v),
        best_fit: Real { bits: fit.to_bits() },
    };
    let mut e = RouteEvolution::from_frames(
        WaypointCount::N5,
        vec![vec![particle(0.0, -2.0), particle(10.0, -1.0)]],
    );
    let nine = Real { bits: 9.0f64.to_bits() };
    let g = e.gbest_at_mut(7).unwrap();
    assert_eq!(g.xs[0], Real { bits: 10.0f64.to_bits() });
    g.ts[4] = nine;
    let g = e.gbest_at(0).unwrap();
    assert_eq!(g.ts[4], nine);
    assert_eq!(g.ts[3], Real { bits: 13.0f64.to_bits() });
    let mut empty = RouteEvolution::from_frames(WaypointCount::N5, Vec::new());
    assert!(empty.gbest_at_mut(0).is_none());
}
