use bywind::calendar::UtcTime;
use bywind::number::{Real, Real32};
use bywind::wind_map::baked::{turn_towards, BakeBounds, BakedWindMap, Turn, Wind};
use bywind::wind_map::lattice::lattice;
use bywind::wind_map::layout::GridLayout;
use bywind::wind_map::timed_rows::TimedWeatherRow;
use bywind::wind_map::{Blend, CellSpan, CyclePlace, TimedWindMap, WeatherRow, WindMap, WindSample};
use bywind::bounds::{LonLatBbox, MapBounds};

fn r32(v: f32) -> Real32 {
    Real32 { bits: v.to_bits() }
}

fn r64(v: f64) -> Real {
    Real { bits: v.to_bits() }
}

fn num(v: Real32) -> f32 {
    f32::from_bits(v.bits)
}

fn num64(v: Real) -> f64 {
    f64::from_bits(v.bits)
}

fn sample(speed: f32, direction: f32) -> WindSample {
    WindSample { speed: r32(speed), direction: r32(direction) }
}

fn row(lon: f32, lat: f32, speed: f32, direction: f32) -> WeatherRow {
    WeatherRow { lon: r32(lon), lat: r32(lat), sample: sample(speed, direction) }
}

fn minus(a: Real32, b: Real32) -> Real32 {
    r32(num(a) - num(b))
}

fn even(a: Real32, b: Real32, step: Real32) -> bool {
    (num(b) - num(a) - num(step)).abs() <= num(step) * 1e-3
}

fn cell(x: Real32, origin: Real32, step: Real32) -> Option<usize> {
    usize::try_from(((num(x) - num(origin)) / num(step)).round() as i64).ok()
}

fn five_steps(step: Real32) -> Real32 {
    r32(5.0 * num(step))
}

fn map_of(rows: Vec<WeatherRow>) -> WindMap {
    WindMap::new(rows, &minus, &even, &cell)
}

fn timed(frames: Vec<WindMap>, step: f32) -> TimedWindMap {
    TimedWindMap::new(frames, r32(step), &five_steps)
}

fn along(lo: f32, hi: f32, origin: Real32, step: Real32) -> (i64, i64) {
    (
        ((lo - num(origin)) / num(step)).floor() as i64,
        ((hi - num(origin)) / num(step)).ceil() as i64,
    )
}

fn span_of(map: &WindMap, x: (f32, f32), y: (f32, f32)) -> CellSpan {
    match map.grid_layout() {
        Some(l) => {
            let (i_lo, i_hi) = along(x.0, x.1, l.origin_x, l.step_x);
            let (j_lo, j_hi) = along(y.0, y.1, l.origin_y, l.step_y);
            CellSpan { i_lo, i_hi, j_lo, j_hi }
        },
        None => CellSpan { i_lo: 0, i_hi: 0, j_lo: 0, j_hi: 0 },
    }
}

fn blend(parts: &[(f32, f32, f32)]) -> (f32, f32) {
    let (mut weights, mut speeds, mut sins, mut coss) = (0.0f32, 0.0f32, 0.0f32, 0.0f32);
    for (w, speed, direction) in parts {
        weights += w;
        speeds += w * speed;
        sins += w * direction.to_radians().sin();
        coss += w * direction.to_radians().cos();
    }
    (speeds / weights, sins.atan2(coss).to_degrees().rem_euclid(360.0))
}

fn query(map: &WindMap, x: f32, y: f32) -> (f32, f32) {
    let dist_sq = |lon: Real32, lat: Real32| {
        r32((x - num(lon)) * (x - num(lon)) + (y - num(lat)) * (y - num(lat)))
    };
    let nearest = |n: usize| {
        let mut all: Vec<(Real32, usize)> =
            map.rows().iter().enumerate().map(|(k, r)| (dist_sq(r.lon, r.lat), k)).collect();
        all.sort_by(|a, b| num(a.0).partial_cmp(&num(b.0)).unwrap());
        all.truncate(n);
        all
    };
    match map.query(span_of(map, (x, x), (y, y)), &dist_sq, &nearest) {
        Blend::Exact(s) => (num(s.speed), num(s.direction)),
        Blend::Weighted(parts) => {
            let parts: Vec<(f32, f32, f32)> =
                parts.iter().map(|(d, s)| (1.0 / num(*d), num(s.speed), num(s.direction))).collect();
            blend(&parts)
        },
    }
}

fn duration(map: &TimedWindMap) -> f32 {
    (map.frame_count() - 1) as f32 * num(map.step_seconds())
}

fn cycle(map: &TimedWindMap) -> f32 {
    duration(map) + num(map.crossfade_seconds())
}

fn query_at(map: &TimedWindMap, x: f32, y: f32, t: f32) -> (f32, f32) {
    let t = t.rem_euclid(cycle(map));
    let (place, alpha) = if t <= duration(map) {
        let steps = t / num(map.step_seconds());
        (CyclePlace::Data { steps: steps.floor() as u64 }, steps - steps.floor())
    } else {
        (CyclePlace::Tail, (t - duration(map)) / num(map.crossfade_seconds()))
    };
    let (lo, hi) = map.query(place, r32(alpha));
    let (s_lo, d_lo) = query(map.frame(lo).unwrap(), x, y);
    match hi {
        None => (s_lo, d_lo),
        Some(hi) => {
            let (s_hi, d_hi) = query(map.frame(hi).unwrap(), x, y);
            blend(&[(1.0 - alpha, s_lo, d_lo), (alpha, s_hi, d_hi)])
        },
    }
}

fn single_point_frame(speed: f32, direction: f32) -> WindMap {
    map_of(vec![row(0.0, 0.0, speed, direction)])
}

fn fixture() -> TimedWindMap {
    timed(vec![single_point_frame(10.0, 0.0), single_point_frame(20.0, 90.0)], 3600.0)
}

#[test]
fn interpolation_midpoint() {
    let map = map_of(vec![row(0.0, 0.0, 10.0, 0.0), row(0.0, 2.0, 20.0, 90.0)]);
    let (speed, direction) = query(&map, 0.0, 1.0);
    assert!((speed - 15.0).abs() < 1e-4, "speed was {speed}");
    assert!((direction - 45.0).abs() < 1e-4, "direction was {direction}");
}

#[test]
fn timed_query_at_frame_boundary_returns_frame() {
    let map = timed(
        vec![
            single_point_frame(10.0, 0.0),
            single_point_frame(20.0, 90.0),
            single_point_frame(30.0, 180.0),
        ],
        3600.0,
    );
    for (t, expected_speed, expected_dir) in
        [(0.0, 10.0, 0.0), (3600.0, 20.0, 90.0), (7200.0, 30.0, 180.0)]
    {
        let (speed, direction) = query_at(&map, 0.0, 0.0, t);
        assert!((speed - expected_speed).abs() < 1e-4, "speed at t={t}: {speed}");
        assert!((direction - expected_dir).abs() < 1e-4, "dir at t={t}: {direction}");
    }
}

#[test]
fn timed_query_midpoint_interpolates() {
    let map = fixture();
    let (speed, direction) = query_at(&map, 0.0, 0.0, 1800.0);
    assert!((speed - 15.0).abs() < 1e-4, "speed was {speed}");
    assert!((direction - 45.0).abs() < 1e-4, "direction was {direction}");
}

#[test]
fn timed_query_wraps_out_of_range_t() {
    let map = fixture();
    let baseline = query_at(&map, 0.0, 0.0, 1800.0);
    let later = query_at(&map, 0.0, 0.0, 1800.0 + cycle(&map));
    assert!((baseline.0 - later.0).abs() < 1e-4, "speed: {} vs {}", baseline.0, later.0);
    let dir_diff = ((baseline.1 - later.1 + 540.0) % 360.0) - 180.0;
    assert!(dir_diff.abs() < 1e-3);
}

#[test]
fn timed_round_trip_via_timed_rows() {
    let original = timed(
        vec![
            map_of(vec![row(0.0, 0.0, 1.0, 10.0), row(1.0, 0.0, 2.0, 20.0)]),
            map_of(vec![row(0.0, 0.0, 3.0, 30.0), row(1.0, 0.0, 4.0, 40.0)]),
        ],
        1800.0,
    );
    let rows = original.to_timed_rows(&|k: usize| r32(k as f32 * 1800.0));
    let told: Vec<(f32, f32, f32, f32, f32)> = rows
        .iter()
        .map(|r| {
            let s = r.sample;
            (num(r.t_seconds), num(r.lon), num(r.lat), num(s.speed), num(s.direction))
        })
        .collect();
    let json = serde_json::to_string(&told).unwrap();
    let read: Vec<(f32, f32, f32, f32, f32)> = serde_json::from_str(&json).unwrap();
    let rows: Vec<TimedWeatherRow> = read
        .into_iter()
        .map(|(t, lon, lat, speed, direction)| TimedWeatherRow {
            t_seconds: r32(t),
            lon: r32(lon),
            lat: r32(lat),
            sample: sample(speed, direction),
        })
        .collect();
    let rebuilt =
        TimedWindMap::from_timed_rows(&rows, &minus, &even, &cell, &five_steps).expect("non-empty");

    assert_eq!(rebuilt.frame_count(), 2);
    assert_eq!(rebuilt.step_seconds(), r32(1800.0));
    assert_eq!(rebuilt.frame(0).unwrap().rows(), original.frame(0).unwrap().rows());
    assert_eq!(rebuilt.frame(1).unwrap().rows(), original.frame(1).unwrap().rows());
}

fn grid_map(nx: usize, ny: usize, step: f32) -> WindMap {
    let mut rows = Vec::with_capacity(nx * ny);
    for i in 0..nx {
        for j in 0..ny {
            rows.push(row(i as f32 * step, j as f32 * step, (i * 100 + j) as f32, 0.0));
        }
    }
    map_of(rows)
}

#[test]
fn grid_query_at_grid_point_returns_exact_sample() {
    let map = grid_map(4, 3, 10.0);
    assert_eq!(query(&map, 20.0, 10.0).0, 201.0);
}

fn corners() -> Vec<WeatherRow> {
    vec![
        row(0.0, 0.0, 10.0, 0.0),
        row(10.0, 0.0, 20.0, 0.0),
        row(0.0, 10.0, 30.0, 0.0),
        row(10.0, 10.0, 40.0, 0.0),
    ]
}

#[test]
fn grid_query_at_cell_center_idw_blends_four_corners() {
    let (speed, _) = query(&map_of(corners()), 5.0, 5.0);
    assert!((speed - 25.0).abs() < 1e-4, "speed was {speed}");
}

#[test]
fn grid_detection_handles_shuffled_input_order() {
    let rows = corners();
    let map = map_of(vec![rows[3], rows[0], rows[1], rows[2]]);
    assert!(map.grid_layout().is_some());
    assert_eq!(query(&map, 0.0, 0.0).0, 10.0);
    assert_eq!(query(&map, 10.0, 10.0).0, 40.0);
}

#[test]
fn grid_query_circle_indices_returns_points_within_radius() {
    let map = grid_map(5, 5, 10.0);
    let (x, y, r) = (20.0f32, 20.0f32, 12.0f32);
    let within = |lon: Real32, lat: Real32| {
        (x - num(lon)) * (x - num(lon)) + (y - num(lat)) * (y - num(lat)) <= r * r
    };
    let span = span_of(&map, (x - r, x + r), (y - r, y + r));
    let indices = map.query_circle_indices(span, &within, &Vec::new);
    let mut expected: Vec<usize> = vec![2 * 5 + 2, 5 + 2, 3 * 5 + 2, 2 * 5 + 1, 2 * 5 + 3];
    expected.sort_unstable();
    assert_eq!(indices, expected);
}

#[test]
fn scattered_rows_are_searched_by_the_caller() {
    let map = map_of(vec![row(0.0, 0.0, 1.0, 0.0), row(7.0, 3.0, 2.0, 0.0)]);
    let span = CellSpan { i_lo: 0, i_hi: 9, j_lo: 0, j_hi: 9 };
    assert_eq!(map.query_circle_indices(span, &|_: Real32, _: Real32| true, &|| vec![1]), vec![1]);
    assert_eq!(map.grid_step(), None);
}

#[test]
fn grid_construction_does_not_panic_for_size_that_breaks_kdtree() {
    let map = grid_map(200, 200, 1.0);
    assert!(query(&map, 150.5, 80.5).0.is_finite());
}

#[test]
fn grid_construction_handles_global_scale_coordinates() {
    let nx = 1440usize;
    let ny = 721usize;
    let metres_per_degree = 111_320.0_f32;
    let mut rows = Vec::with_capacity(nx * ny);
    for i in 0..nx {
        for j in 0..ny {
            let lon = -180.0 + (i as f32) * 0.25;
            let lat = -90.0 + (j as f32) * 0.25;
            rows.push(row(lon * metres_per_degree, lat * metres_per_degree, 1.0, 0.0));
        }
    }
    let map = map_of(rows);
    assert!(map.grid_layout().is_some());
    assert!(query(&map, 0.0, 0.0).0.is_finite());
}

#[test]
fn from_timed_rows_single_frame_uses_default_step() {
    let at = |lon: f32| TimedWeatherRow {
        lon: r32(lon),
        lat: r32(0.0),
        t_seconds: r32(0.0),
        sample: sample(5.0, 0.0),
    };
    let rows = vec![at(0.0), at(1.0)];
    let map = TimedWindMap::from_timed_rows(&rows, &minus, &even, &cell, &five_steps).unwrap();
    assert_eq!(map.frame_count(), 1);
    assert_eq!(map.step_seconds(), r32(1.0));
    let none = TimedWindMap::from_timed_rows(&Vec::new(), &minus, &even, &cell, &five_steps);
    assert!(none.is_none());
}

#[test]
fn cycle_and_crossfade_defaults() {
    let m = fixture();
    assert_eq!(num(m.step_seconds()), 3600.0);
    assert_eq!(duration(&m), 3600.0);
    assert_eq!(num(m.crossfade_seconds()), 5.0 * 3600.0);
    assert_eq!(cycle(&m), 3600.0 + 5.0 * 3600.0);
}

#[test]
fn at_data_end_returns_last_frame_exactly() {
    let m = fixture();
    let (speed, direction) = query_at(&m, 0.0, 0.0, duration(&m));
    assert!((speed - 20.0).abs() < 1e-4);
    assert!((direction - 90.0).abs() < 1e-4);
}

#[test]
fn at_cycle_returns_first_frame_exactly() {
    let m = fixture();
    let (speed, direction) = query_at(&m, 0.0, 0.0, cycle(&m));
    assert!((speed - 10.0).abs() < 1e-4);
    assert!((direction - 0.0).abs() < 1e-4);
}

#[test]
fn midpoint_of_crossfade_blends_50_50() {
    let m = fixture();
    let t = duration(&m) + num(m.crossfade_seconds()) / 2.0;
    let (speed, direction) = query_at(&m, 0.0, 0.0, t);
    assert!((speed - 15.0).abs() < 1e-3, "speed = {speed}");
    let wrapped = ((direction - 45.0 + 540.0) % 360.0) - 180.0;
    assert!(wrapped.abs() < 1e-3, "direction = {direction}");
}

#[test]
fn continuity_across_cycle_boundary() {
    let m = fixture();
    let eps = 12.0_f32;
    let near_start = query_at(&m, 0.0, 0.0, eps);
    let after_cycle = query_at(&m, 0.0, 0.0, cycle(&m) + eps);
    assert!((near_start.0 - after_cycle.0).abs() < 1e-3);
    let dir_wrapped = ((near_start.1 - after_cycle.1 + 540.0) % 360.0) - 180.0;
    assert!(dir_wrapped.abs() < 1e-3);
}

fn bake(map: &TimedWindMap, bbox: LonLatBbox, step: f64) -> BakedWindMap {
    let bounds = BakeBounds { bbox, step: r64(step), coord_scale: r64(1.0) };
    let nx = ((num64(bbox.lon_max) - num64(bbox.lon_min)) / step).ceil() as usize + 1;
    let ny = ((num64(bbox.lat_max) - num64(bbox.lat_min)) / step).ceil() as usize + 1;
    let wind_at = |i: usize, j: usize, k: usize| {
        let x = num64(bbox.lon_min) + i as f64 * step;
        let y = num64(bbox.lat_min) + j as f64 * step;
        let (speed, direction) = query(map.frame(k).unwrap(), x as f32, y as f32);
        let speed = f64::from(speed) * 1852.0 / 3600.0;
        let bearing = f64::from(direction).to_radians();
        Wind { east_mps: r64(-speed * bearing.sin()), north_mps: r64(-speed * bearing.cos()) }
    };
    let widen = |x: Real32| r64(f64::from(num(x)));
    BakedWindMap::from_timed_map(map, bounds, &|_: BakeBounds| (nx, ny), &widen, &wind_at)
}

#[test]
fn baked_crossfade_matches_timed_at_endpoints() {
    let m = fixture();
    let zero = r64(0.0);
    let baked = bake(&m, LonLatBbox::new(zero, zero, zero, zero), 0.25);
    let knots_to_ms = 1852.0 / 3600.0;

    let (w0, later) = baked.sample_wind(0, 0, CyclePlace::Data { steps: 0 }, zero);
    assert!(later.is_none());
    assert!(num64(w0.east_mps).abs() < 1e-3);
    assert!((num64(w0.north_mps) + 10.0 * knots_to_ms).abs() < 1e-3);

    let (last, first) = baked.sample_wind(0, 0, CyclePlace::Tail, r64(0.5));
    let first = first.unwrap();
    let east = (num64(last.east_mps) + num64(first.east_mps)) / 2.0;
    let north = (num64(last.north_mps) + num64(first.north_mps)) / 2.0;
    assert!((east + 10.0 * knots_to_ms).abs() < 1e-2);
    assert!((north + 5.0 * knots_to_ms).abs() < 1e-2);
}

#[test]
fn baked_cells_outside_the_grid_are_moved_onto_it() {
    let m = timed(vec![grid_map(3, 2, 1.0)], 3600.0);
    let b = |v: f64| r64(v);
    let baked = bake(&m, LonLatBbox::new(b(0.0), b(2.0), b(0.0), b(1.0)), 1.0);
    assert_eq!((baked.nx(), baked.ny(), baked.nt()), (3, 2, 1));
    let inside = baked.sample_wind(2, 1, CyclePlace::Tail, b(0.5));
    assert_eq!(inside, baked.sample_wind(9, 7, CyclePlace::Data { steps: 4 }, b(0.0)));
    assert!(inside.1.is_none());
    assert_ne!(inside.0, baked.sample_wind(-3, -3, CyclePlace::Tail, b(0.5)).0);
}

#[test]
fn longitudes_are_turned_towards_the_grid() {
    assert_eq!(turn_towards(r64(-175.0), r64(170.0), r64(190.0)), Turn::East);
    assert_eq!(turn_towards(r64(195.0), r64(-170.0), r64(-160.0)), Turn::West);
    assert_eq!(turn_towards(r64(0.0), r64(-10.0), r64(10.0)), Turn::Stay);
}

#[test]
fn time_ranges_are_kept_in_order() {
    let at = |s: i64| UtcTime { seconds: s, nanos: 0 };
    let m = fixture().with_time_range(at(20), at(10));
    assert_eq!(m.time_range(), Some((at(10), at(20))));
    assert_eq!(fixture().time_range(), None);
}

#[test]
fn crossfades_are_not_negative() {
    assert_eq!(fixture().with_crossfade_seconds(r32(-1.0)).crossfade_seconds(), r32(0.0));
    assert_eq!(fixture().with_crossfade_seconds(r32(7.0)).crossfade_seconds(), r32(7.0));
}

#[test]
fn a_field_is_made_for_any_time() {
    let m = timed(vec![map_of(corners()), map_of(corners())], 3600.0);
    let wind_at = |lon: Real32, _lat: Real32| sample(num(lon) + 1.0, 5.0);
    let made = m.synthesize_frame_at(&wind_at, &minus, &even, &cell);
    assert_eq!(made.grid_layout(), m.frame(0).unwrap().grid_layout());
    for (k, r) in made.rows().iter().enumerate() {
        assert_eq!(r.lon, m.frame(0).unwrap().rows()[k].lon);
        assert_eq!(num(r.sample.speed), num(r.lon) + 1.0);
    }
}

#[test]
fn samples_are_set_by_place() {
    let mut map = map_of(corners());
    assert_eq!(map.set_sample(2, r32(99.0), r32(7.0)), Some(()));
    assert_eq!(map.set_sample(4, r32(99.0), r32(7.0)), None);
    assert_eq!(map.rows()[2].sample, sample(99.0, 7.0));
    assert_eq!(map.grid_step(), Some(r32(10.0)));
}

#[test]
fn a_map_without_rows_has_no_wind() {
    assert_eq!(query(&map_of(Vec::new()), 1.0, 2.0), (0.0, 0.0));
}

#[test]
fn a_nan_coordinate_makes_no_grid() {
    let mut rows = corners();
    rows[1].lon = r32(f32::NAN);
    assert!(map_of(rows).grid_layout().is_none());
}

#[test]
fn rows_in_grid_order_are_taken_as_they_are() {
    let layout = GridLayout {
        origin_x: r32(0.0),
        origin_y: r32(0.0),
        step_x: r32(1.0),
        step_y: r32(1.0),
        nx: 2,
        ny: 2,
    };
    let map = WindMap::from_grid(corners(), layout);
    assert_eq!(map.grid_layout(), Some(layout));
    assert_eq!(map.rows(), &corners());
}

#[test]
fn from_wind_map_uniform_grid_matches_generate_inputs() {
    let samples: Vec<WindSample> = (0..9).map(|_| sample(0.0, 0.0)).collect();
    let rows = lattice(3, 3, &samples, &|k: usize| r32(k as f32 * 50.0));
    assert_eq!((num(rows[7].lon), num(rows[7].lat)), (100.0, 50.0));
    let wm = timed(vec![map_of(rows)], 3600.0);
    let widen = |v: Real32| r64(f64::from(num(v)));
    let bounds = MapBounds::from_wind_map(&wm, &widen).expect("non-empty");
    assert_eq!(num64(bounds.bbox.lon_min), 0.0);
    assert_eq!(num64(bounds.bbox.lon_max), 100.0);
    assert_eq!(num64(bounds.bbox.lat_min), 0.0);
    assert_eq!(num64(bounds.bbox.lat_max), 100.0);
}

#[test]
fn a_frame_can_be_changed() {
    let mut map = fixture();
    assert!(map.frame_mut(2).is_none());
    map.frame_mut(1).unwrap().set_sample(0, r32(33.0), r32(7.0)).unwrap();
    assert_eq!(map.frame(1).unwrap().rows()[0].sample, sample(33.0, 7.0));
    assert_eq!(map.frame(0).unwrap().rows()[0].sample, sample(10.0, 0.0));
}

#[test]
fn cycles_have_lengths() {
    let map = fixture();
    let span = |steps: usize, step: Real32| r32(steps as f32 * num(step));
    let plus = |a: Real32, b: Real32| r32(num(a) + num(b));
    assert_eq!(map.duration_seconds(&span), r32(3600.0));
    assert_eq!(map.cycle_seconds(&span, &plus), r32(3600.0 + 5.0 * 3600.0));
}

#[test]
fn made_up_maps_are_on_a_grid() {
    let along = |k: usize| r32(k as f32 * 0.5);
    let map = WindMap::generate(3, 2, &along, &minus, &even, &cell);
    assert_eq!(map.rows().len(), 6);
    assert_eq!(map.rows()[3], row(0.5, 0.5, 0.0, 0.0));
    let l = map.grid_layout().unwrap();
    assert_eq!((l.nx, l.ny, l.step_x), (3, 2, r32(0.5)));
    let samples: Vec<WindSample> = (0..4).map(|k| sample(k as f32, 0.0)).collect();
    let map = WindMap::generate_with(2, 2, &samples, &along, &minus, &even, &cell);
    assert_eq!(map.rows()[2], row(0.5, 0.0, 2.0, 0.0));
}

#[test]
fn rows_in_a_circle_are_told() {
    let along = |k: usize| r32(k as f32);
    let map = WindMap::generate(3, 3, &along, &minus, &even, &cell);
    let within = |lon: Real32, lat: Real32| {
        (num(lon) - 1.0).powi(2) + (num(lat) - 1.0).powi(2) <= 1.0
    };
    let rows = map.query_circle(span_of(&map, (0.0, 2.0), (0.0, 2.0)), &within, &Vec::new);
    let places: Vec<(f32, f32)> = rows.iter().map(|r| (num(r.lon), num(r.lat))).collect();
    assert_eq!(places, vec![(0.0, 1.0), (1.0, 0.0), (1.0, 1.0), (1.0, 2.0), (2.0, 1.0)]);
}
