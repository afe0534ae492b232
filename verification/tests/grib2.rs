use bywind::calendar::UtcTime;
use bywind::wind_map::WindSample;
use bywind::grib2::{
    build_rows, compute_median_step_seconds, days_from_civil, finish_load, forecast_unit_to_seconds,
    ref_time_to_unix_seconds, Grib2Bbox, Grib2Scan, GridCache, LoadError, LoadedFrames, Need, RefTime, Submessage,
    TimeUnit, WindRow,
};
use bywind::number::{Real, Real32};

use bywind::grib2::load::load_grib2;

fn r32(v: f32) -> Real32 {
    Real32 { bits: v.to_bits() }
}

fn num(v: Real32) -> f32 {
    f32::from_bits(v.bits)
}

fn rows(
    u: &[f32],
    v: &[f32],
    latlons: &[(f32, f32)],
    bbox: Option<Grib2Bbox>,
    stride: usize,
) -> Vec<WindRow> {
    let wide = |s: &[f32]| s.iter().map(|x| r32(*x)).collect::<Vec<Real32>>();
    let points = latlons.iter().map(|p| (r32(p.0), r32(p.1))).collect();
    let cache = GridCache::new(points, stride, bbox);
    build_rows(&wide(u), &wide(v), &cache, bbox)
}

fn bbox(lat: (f32, f32), lon: (f32, f32)) -> Option<Grib2Bbox> {
    Some(Grib2Bbox {
        lat_min: r32(lat.0),
        lat_max: r32(lat.1),
        lon_min: r32(lon.0),
        lon_max: r32(lon.1),
    })
}

fn square(n: usize, lon_from: f32) -> Vec<(f32, f32)> {
    let mut latlons = Vec::new();
    for j in 0..n {
        for i in 0..n {
            latlons.push((j as f32, lon_from + i as f32));
        }
    }
    latlons
}

fn from_bearing(r: &WindRow) -> (f32, f32) {
    let (u, v) = (num(r.u), num(r.v));
    let direction = (-u).atan2(-v).to_degrees().rem_euclid(360.0);
    ((u * u + v * v).sqrt(), direction)
}

#[test]
fn forecast_unit_to_seconds_handles_common_units() {
    assert_eq!(forecast_unit_to_seconds(&TimeUnit::Hour, 0), Some(0));
    assert_eq!(forecast_unit_to_seconds(&TimeUnit::Hour, 6), Some(21_600));
    assert_eq!(forecast_unit_to_seconds(&TimeUnit::ThreeHours, 4), Some(43_200));
    assert_eq!(forecast_unit_to_seconds(&TimeUnit::Day, 2), Some(172_800));
}

#[test]
fn forecast_unit_to_seconds_rejects_calendar_units() {
    assert_eq!(forecast_unit_to_seconds(&TimeUnit::Month, 1), None);
    assert_eq!(forecast_unit_to_seconds(&TimeUnit::Missing, 1), None);
    assert_eq!(forecast_unit_to_seconds(&TimeUnit::Unnamed(99), 1), None);
}

#[test]
fn build_rows_bbox_drops_points_outside_rectangle() {
    let values = vec![1.0_f32; 9];
    let b = bbox((1.0, 2.0), (1.0, 1.0));
    assert_eq!(rows(&values, &values, &square(3, 0.0), b, 1).len(), 2);
}

#[test]
fn build_rows_bbox_and_stride_compose() {
    let values = vec![1.0_f32; 25];
    let b = bbox((1.0, 3.0), (1.0, 3.0));
    assert_eq!(rows(&values, &values, &square(5, 0.0), b, 2).len(), 4);
}

#[test]
fn build_rows_round_trips_north_wind() {
    let got = rows(&[0.0], &[-10.0], &[(45.0, 0.0)], None, 1);
    assert_eq!(got.len(), 1);
    let (speed, direction) = from_bearing(&got[0]);
    assert!((speed - 10.0).abs() < 1e-4);
    assert!((direction - 0.0).abs() < 1e-3);
}

#[test]
fn build_rows_round_trips_east_wind() {
    let got = rows(&[-10.0], &[0.0], &[(45.0, 0.0)], None, 1);
    assert!((from_bearing(&got[0]).1 - 90.0).abs() < 1e-3);
}

#[test]
fn build_rows_skips_nan_samples() {
    let got = rows(&[f32::NAN, 5.0], &[0.0, 0.0], &[(45.0, 0.0), (45.5, 0.0)], None, 1);
    assert_eq!(got.len(), 1);
}

#[test]
fn build_rows_emits_lon_lat_directly() {
    let got = rows(&[0.0; 2], &[0.0; 2], &[(45.0, -10.0), (60.0, 5.0)], None, 1);
    assert_eq!(got.len(), 2);
    assert!((num(got[0].lon) - (-10.0)).abs() < 1e-6);
    assert!((num(got[0].lat) - 45.0).abs() < 1e-6);
    assert!((num(got[1].lon) - 5.0).abs() < 1e-6);
    assert!((num(got[1].lat) - 60.0).abs() < 1e-6);
}

#[test]
fn build_rows_stride_keeps_every_nth_unique_axis_value() {
    let values = vec![1.0_f32; 16];
    let got = rows(&values, &values, &square(4, 10.0), None, 2);
    assert_eq!(got.len(), 4);
    let mut lats: Vec<f32> = got.iter().map(|r| num(r.lat)).collect();
    let mut lons: Vec<f32> = got.iter().map(|r| num(r.lon)).collect();
    lats.sort_by(|a, b| a.partial_cmp(b).unwrap());
    lats.dedup();
    lons.sort_by(|a, b| a.partial_cmp(b).unwrap());
    lons.dedup();
    assert_eq!(lats, vec![0.0, 2.0]);
    assert_eq!(lons, vec![10.0, 12.0]);
}

#[test]
fn build_rows_stride_one_is_no_op() {
    let latlons: Vec<(f32, f32)> = (0..9).map(|k| (k as f32, k as f32)).collect();
    let values = vec![1.0_f32; 9];
    assert_eq!(rows(&values, &values, &latlons, None, 1).len(), 9);
    assert_eq!(rows(&values, &values, &latlons, None, 0).len(), 9);
}

#[test]
fn days_from_civil_matches_known_anchors() {
    assert_eq!(days_from_civil(1970, 1, 1), Some(0));
    assert_eq!(days_from_civil(2000, 1, 1), Some(10_957));
    assert_eq!(days_from_civil(2000, 12, 31), Some(10_957 + 365));
    assert_eq!(days_from_civil(1969, 12, 31), Some(-1));
    assert_eq!(days_from_civil(1969, 1, 1), Some(-365));
}

fn at(year: u16, month: u8, day: u8, hour: u8, minute: u8, second: u8) -> RefTime {
    RefTime { year, month, day, hour, minute, second }
}

#[test]
fn ref_time_to_unix_seconds_combines_date_and_time() {
    assert_eq!(ref_time_to_unix_seconds(&at(1970, 1, 1, 0, 0, 0)), Some(0));
    assert_eq!(ref_time_to_unix_seconds(&at(1970, 1, 1, 1, 30, 15)), Some(3600 + 30 * 60 + 15));
    assert_eq!(ref_time_to_unix_seconds(&at(1970, 1, 2, 0, 0, 0)), Some(86_400));
    let a = ref_time_to_unix_seconds(&at(2026, 3, 1, 0, 0, 0)).unwrap();
    let b = ref_time_to_unix_seconds(&at(2026, 3, 1, 6, 0, 0)).unwrap();
    assert_eq!(b - a, 21_600);
}

#[test]
fn ref_time_to_unix_seconds_rejects_invalid_clock() {
    assert_eq!(ref_time_to_unix_seconds(&at(2026, 3, 1, 25, 0, 0)), None);
    assert_eq!(ref_time_to_unix_seconds(&at(2026, 3, 1, 0, 60, 0)), None);
    assert_eq!(ref_time_to_unix_seconds(&at(2026, 13, 1, 0, 0, 0)), None);
}

fn message(number: u8, lead: u32, height: f64) -> Submessage {
    Submessage {
        discipline: 0,
        category: Some(2),
        number: Some(number),
        surface: Some((103, Real { bits: height.to_bits() })),
        forecast: Some((TimeUnit::Hour, lead)),
        ref_time: at(2026, 3, 1, 0, 0, 0),
    }
}

#[test]
fn only_wind_at_ten_metres_counts() {
    let scan = Grib2Scan::new(1, None);
    assert_eq!(scan.needs(&message(2, 0, 10.0)), Need::GridAndValues);
    assert_eq!(scan.needs(&message(3, 0, 10.0)), Need::GridAndValues);
    assert_eq!(scan.needs(&message(1, 0, 10.0)), Need::Nothing);
    assert_eq!(scan.needs(&message(2, 0, 80.0)), Need::Nothing);
    assert_eq!(scan.needs(&Submessage { forecast: None, ..message(2, 0, 10.0) }), Need::Nothing);
    assert_eq!(scan.needs(&Submessage { discipline: 10, ..message(2, 0, 10.0) }), Need::Nothing);
}

#[test]
fn frames_are_put_together_by_time() {
    let points: Vec<(Real32, Real32)> = vec![(r32(1.0), r32(2.0)), (r32(1.0), r32(3.0))];
    let mut scan = Grib2Scan::new(0, None);
    let values = |a: f32, b: f32| Some(vec![r32(a), r32(b)]);
    let mut decoded = Vec::new();
    for (number, lead, v) in
        [(3, 6, values(7.0, 8.0)), (2, 6, values(5.0, 6.0)), (2, 0, values(1.0, 2.0)), (3, 0, values(3.0, 4.0)), (2, 9, values(0.0, 0.0))]
    {
        let grid = if scan.needs(&message(number, lead, 10.0)) == Need::GridAndValues {
            Some(points.clone())
        } else {
            None
        };
        assert!(scan.accept(&message(number, lead, 10.0), grid, true));
        let (t, is_u) = *scan.pending.last().unwrap();
        decoded.push((t, is_u, v));
    }
    let loaded = finish_load(scan.cache.as_ref(), decoded, None).unwrap();
    let start = ref_time_to_unix_seconds(&at(2026, 3, 1, 0, 0, 0)).unwrap();
    assert_eq!(loaded.times, vec![start, start + 6 * 3600]);
    assert_eq!(loaded.step_seconds, 6 * 3600);
    assert_eq!(loaded.frames[0][1], WindRow { lon: r32(3.0), lat: r32(1.0), u: r32(2.0), v: r32(4.0) });
    assert_eq!(loaded.frames[1][0], WindRow { lon: r32(2.0), lat: r32(1.0), u: r32(5.0), v: r32(7.0) });
    assert_eq!(loaded.range.unwrap().0.seconds, start);
}

#[test]
fn a_file_without_a_pair_has_no_frames() {
    assert!(matches!(finish_load(None, Vec::new(), None), Err(LoadError::NoFrames)));
    let cache = GridCache::new(vec![(r32(0.0), r32(0.0))], 1, None);
    let half = vec![(0i64, true, Some(vec![r32(1.0)]))];
    assert!(matches!(finish_load(Some(&cache), half, None), Err(LoadError::NoFrames)));
}

#[test]
fn the_median_gap_is_the_step() {
    assert_eq!(compute_median_step_seconds(&vec![0, 3600, 7200, 30_000]), 3600);
    assert_eq!(compute_median_step_seconds(&vec![0]), 1);
}

#[test]
fn frames_become_a_wind_map() {
    let row = |lon: f32, lat: f32, u: f32, v: f32| WindRow { lon: r32(lon), lat: r32(lat), u: r32(u), v: r32(v) };
    let at = |seconds: i64| UtcTime { seconds, nanos: 0 };
    let loaded = LoadedFrames {
        times: vec![0, 7200],
        frames: vec![vec![row(1.0, 2.0, 3.0, 4.0)], vec![row(1.0, 2.0, -6.0, 8.0)]],
        step_seconds: 7200,
        range: Some((at(0), at(7200))),
    };
    let map = loaded.into_wind_map(
        &|u: Real32, v: Real32| WindSample { speed: r32(num(u).hypot(num(v))), direction: u },
        &|a: Real32, b: Real32| r32(num(a) - num(b)),
        &|_: Real32, _: Real32, _: Real32| true,
        &|_: Real32, _: Real32, _: Real32| None,
        &|s: i64| r32(s as f32),
        &|s: Real32| r32(5.0 * num(s)),
    );
    assert_eq!(map.frame_count(), 2);
    assert_eq!(map.step_seconds(), r32(7200.0));
    assert_eq!(map.crossfade_seconds(), r32(36000.0));
    assert_eq!(map.time_range(), Some((at(0), at(7200))));
    let first = map.frame(1).unwrap().rows()[0];
    assert_eq!((first.lon, first.sample.speed, first.sample.direction), (r32(1.0), r32(10.0), r32(-6.0)));
}

fn section(num: u8, body: &[u8]) -> Vec<u8> {
    let mut s = ((body.len() + 5) as u32).to_be_bytes().to_vec();
    s.push(num);
    s.extend_from_slice(body);
    s
}

fn grid_section(ni: u32, nj: u32) -> Vec<u8> {
    let mut b = vec![0];
    b.extend((ni * nj).to_be_bytes());
    b.extend([0, 0, 0, 0]);
    b.extend([0; 16]);
    b.extend(ni.to_be_bytes());
    b.extend(nj.to_be_bytes());
    b.extend([0; 8]);
    b.extend(0u32.to_be_bytes());
    b.extend(10_000_000u32.to_be_bytes());
    b.push(0);
    b.extend(1_000_000u32.to_be_bytes());
    b.extend(11_000_000u32.to_be_bytes());
    b.extend([0; 8]);
    b.push(0x40);
    section(3, &b)
}

fn product_section(number: u8, lead_hours: u32) -> Vec<u8> {
    let mut b = vec![0, 0, 0, 0, 2, number, 0, 0, 0, 0, 0, 0, 1];
    b.extend(lead_hours.to_be_bytes());
    b.extend([103, 0, 0, 0, 0, 10, 255, 0, 0, 0, 0, 0]);
    section(4, &b)
}

fn simple_section(points: u32, bits: u8) -> Vec<u8> {
    let mut b = points.to_be_bytes().to_vec();
    b.extend([0, 0]);
    b.extend(0f32.to_be_bytes());
    b.extend([0, 0, 0, 0, bits, 0]);
    section(5, &b)
}

/// Differences of some order in groups of some width, each with a least value of 8 bits. All
/// groups but the last have `len` values.
fn differences(points: u32, groups: u32, width: u8, len: u32, last: u32, order: u8, octets: u8) -> Vec<u8> {
    let mut b = points.to_be_bytes().to_vec();
    b.extend([0, 3]);
    b.extend(0f32.to_be_bytes());
    b.extend([0, 0, 0, 0, 8, 0]);
    b.extend([1, 0]);
    b.extend([0; 8]);
    b.extend(groups.to_be_bytes());
    b.extend([width, 0]);
    b.extend(len.to_be_bytes());
    b.push(1);
    b.extend(last.to_be_bytes());
    b.push(0);
    b.extend([order, octets]);
    section(5, &b)
}

/// Second-order differences in one group of 8-bit values.
fn spatial_section(points: u32) -> Vec<u8> {
    differences(points, 1, 8, 0, points, 2, 1)
}

fn message_of(fields: &[Vec<u8>]) -> Vec<u8> {
    let mut body = section(1, &[0, 7, 0, 0, 2, 1, 1, 0x07, 0xE9, 2, 13, 6, 0, 0, 0, 1]);
    for f in fields {
        body.extend_from_slice(f);
    }
    let mut m = b"GRIB\0\0\0\x02".to_vec();
    m.extend(((body.len() + 20) as u64).to_be_bytes());
    m.extend(body);
    m.extend(b"7777");
    m
}

fn wind_message(number: u8, representation: Vec<u8>, data: &[u8]) -> Vec<u8> {
    message_of(&[
        grid_section(2, 2),
        product_section(number, 3),
        representation,
        section(6, &[255]),
        section(7, data),
    ])
}

#[test]
fn files_are_loaded() {
    let mut file = wind_message(2, simple_section(4, 8), &[1, 2, 3, 4]);
    file.extend(wind_message(3, simple_section(4, 8), &[5, 6, 7, 8]));
    let loaded = load_grib2(&file, 1, None).unwrap();
    assert_eq!(loaded.times, [1_739_426_400 + 3 * 3600]);
    assert_eq!(loaded.frames.len(), 1);
    let rows: Vec<(f32, f32, f32, f32)> = loaded.frames[0]
        .iter()
        .map(|r| {
            let n = |x: Real32| f32::from_bits(x.bits);
            (n(r.lat), n(r.lon), n(r.u), n(r.v))
        })
        .collect();
    assert_eq!(
        rows,
        [(0.0, 10.0, 1.0, 5.0), (0.0, 11.0, 2.0, 6.0), (1.0, 10.0, 3.0, 7.0), (1.0, 11.0, 4.0, 8.0)]
    );
}

#[test]
fn differences_are_added_up() {
    // The first two values, the least difference, the least of the group, and four values.
    let data = [10, 12, 0x81, 0, 9, 9, 3, 2];
    let mut file = wind_message(2, spatial_section(4), &data);
    file.extend(wind_message(3, simple_section(4, 8), &[5, 6, 7, 8]));
    let loaded = load_grib2(&file, 1, None).unwrap();
    let u: Vec<f32> = loaded.frames[0].iter().map(|r| f32::from_bits(r.u.bits)).collect();
    assert_eq!(u, [10.0, 12.0, 16.0, 21.0]);
}

#[test]
fn a_grid_may_be_shared() {
    let file = message_of(&[
        grid_section(2, 2),
        product_section(2, 0),
        simple_section(4, 8),
        section(6, &[255]),
        section(7, &[1, 2, 3, 4]),
        product_section(3, 0),
        simple_section(4, 8),
        section(6, &[255]),
        section(7, &[5, 6, 7, 8]),
    ]);
    assert_eq!(load_grib2(&file, 1, None).unwrap().frames[0].len(), 4);
}

#[test]
fn malformed_files_are_refused() {
    let good = wind_message(2, simple_section(4, 8), &[1, 2, 3, 4]);
    assert!(matches!(load_grib2(&good, 1, None), Err(LoadError::NoFrames)));
    assert!(matches!(load_grib2(b"no message here", 1, None), Err(LoadError::NoFrames)));
    for at in [7, 16 + 3, 16 + 4] {
        let mut bad = good.clone();
        bad[at] = 9;
        assert!(matches!(load_grib2(&bad, 1, None), Err(LoadError::Grib(_))), "{at}");
    }
    assert!(matches!(load_grib2(&good[..good.len() - 1], 1, None), Err(LoadError::Grib(_))));
}

#[test]
fn messages_that_cannot_be_unpacked_are_passed_over() {
    let mut pair = wind_message(2, simple_section(4, 8), &[1, 2, 3, 4]);
    pair.extend(wind_message(3, simple_section(4, 8), &[5, 6, 7, 8]));
    let with_product = |product: Vec<u8>| {
        message_of(&[
            grid_section(2, 2),
            product,
            simple_section(4, 8),
            section(6, &[255]),
            section(7, &[1, 2, 3, 4]),
        ])
    };
    let overflow = [0, 0, 0, 5, 0x7F, 0xFF, 0xFF, 0xFF, 1, 0];
    let cases = vec![
        // A product that is too short for its template: of a temperature, and of a wind.
        with_product(section(4, &[0, 0, 0, 0, 0, 0])),
        with_product(section(4, &[0, 0, 0, 0, 2, 2])),
        // Groups that tell of more bits than there are.
        wind_message(2, spatial_section(4), &[10, 12, 0x81, 0, 9]),
        // An order of differences that is not told.
        wind_message(2, differences(4, 1, 8, 0, 4, 255, 1), &[10, 12, 0x81, 0, 9, 9, 3, 2]),
        // A group without values whose least value does not fit.
        wind_message(2, differences(4, 2, 0, 0, 4, 1, 4), &overflow),
        // A grid without columns.
        message_of(&[
            grid_section(0, 2),
            product_section(2, 0),
            simple_section(0, 8),
            section(6, &[255]),
            section(7, &[]),
        ]),
    ];
    for (k, odd) in cases.iter().enumerate() {
        assert!(matches!(load_grib2(odd, 1, None), Err(LoadError::NoFrames)), "{k}");
        for file in [[&pair[..], &odd[..]].concat(), [&odd[..], &pair[..]].concat()] {
            let loaded = load_grib2(&file, 1, None).unwrap();
            assert_eq!(loaded.times, [1_739_426_400 + 3 * 3600], "{k}");
            assert_eq!(loaded.frames[0].len(), 4, "{k}");
        }
    }
}

#[test]
fn groups_behind_the_last_value_are_not_looked_at() {
    // A first value, the least difference, two least values and those of the first group.
    let u = wind_message(2, differences(4, 2, 8, 4, 100, 1, 1), &[10, 0, 0, 0, 9, 1, 2, 3]);
    let file = [u, wind_message(3, simple_section(4, 8), &[5, 6, 7, 8])].concat();
    let loaded = load_grib2(&file, 1, None).unwrap();
    let u: Vec<f32> = loaded.frames[0].iter().map(|r| f32::from_bits(r.u.bits)).collect();
    assert_eq!(u, [10.0, 11.0, 13.0, 16.0]);
}
