use bywind::auto_bounds::{derive_route_bbox, format_bbox_flag};
use bywind::bounds::{LonLatBbox, MapBounds};
use bywind::number::Real;

fn r64(v: f64) -> Real {
    Real { bits: v.to_bits() }
}

fn num(v: Real) -> f64 {
    f64::from_bits(v.bits)
}

fn bbox(lon_min: f64, lon_max: f64, lat_min: f64, lat_max: f64) -> MapBounds {
    MapBounds { bbox: LonLatBbox::new(r64(lon_min), r64(lon_max), r64(lat_min), r64(lat_max)) }
}

fn point(p: (f64, f64)) -> (Real, Real) {
    (r64(p.0), r64(p.1))
}

fn extents(b: LonLatBbox) -> (Real, Real) {
    let width = num(b.lon_max) - num(b.lon_min);
    let width = if width < 0.0 { width + 360.0 } else { width };
    (r64(width), r64(num(b.lat_max) - num(b.lat_min)))
}

fn share(v: Real) -> Real {
    r64(num(v) / 1024.0)
}

fn wrap(lon: f64) -> f64 {
    let w = (lon + 180.0).rem_euclid(360.0) - 180.0;
    if w == -180.0 { 180.0 } else { w }
}

/// The area of a route whose way by sea is given.
fn derive(
    origin: (f64, f64),
    destination: (f64, f64),
    way: Option<Vec<(f64, f64)>>,
    clamp: Option<MapBounds>,
) -> Option<MapBounds> {
    let sea_path = |_: (Real, Real), _: (Real, Real)| {
        way.as_ref().map(|w| w.iter().map(|p| point(*p)).collect::<Vec<(Real, Real)>>())
    };
    let onward = |from: Real, lon: Real| {
        let delta = wrap(num(lon) - wrap(num(from)));
        r64(num(from) + delta)
    };
    let padded = |lo: Real, hi: Real| {
        let pad = (0.20 * (num(hi) - num(lo))).max(3.0);
        (r64(num(lo) - pad), r64(num(hi) + pad))
    };
    let round = |lo: Real, hi: Real| num(hi) - num(lo) >= 360.0;
    let back = |lon: Real| r64(wrap(num(lon)));
    derive_route_bbox(
        point(origin),
        point(destination),
        &sea_path,
        &onward,
        &padded,
        &round,
        &back,
        clamp,
    )
}

#[test]
fn to_bake_bounds_carries_extents_and_step() {
    let bb = bbox(-10.0, 110.0, 5.0, 95.0).to_bake_bounds(r64(7.5), &extents, &share);
    assert_eq!(num(bb.bbox.lon_min), -10.0);
    assert_eq!(num(bb.bbox.lon_max), 110.0);
    assert_eq!(num(bb.bbox.lat_min), 5.0);
    assert_eq!(num(bb.bbox.lat_max), 95.0);
    assert_eq!(num(bb.step), 7.5);
    assert_eq!(num(bb.coord_scale), 1.0);
}

#[test]
fn to_bake_bounds_grows_step_to_cap_grid_resolution() {
    let bb = bbox(-2.0e7, 2.0e7, -1.0e7, 1.0e7).to_bake_bounds(r64(5.0), &extents, &share);
    let lon_span = num(bb.bbox.lon_max) - num(bb.bbox.lon_min);
    let lat_span = num(bb.bbox.lat_max) - num(bb.bbox.lat_min);
    let nx = (lon_span / num(bb.step)).ceil() as usize + 1;
    let ny = (lat_span / num(bb.step)).ceil() as usize + 1;
    assert!(nx <= 1025, "nx = {nx}");
    assert!(ny <= 1025, "ny = {ny}");
    assert!(num(bb.step) > 5.0, "expected step grown above requested 5.0, got {}", num(bb.step));
}

#[test]
fn resolve_endpoints_falls_back_to_bbox_corners() {
    let (start, end) = bbox(-5.0, 15.0, 1.0, 9.0).resolve_endpoints(None, None);
    assert_eq!(start, point((-5.0, 1.0)));
    assert_eq!(end, point((15.0, 9.0)));
}

#[test]
fn resolve_endpoints_honours_user_overrides() {
    let b = bbox(-5.0, 15.0, 1.0, 9.0);
    let (start, end) = b.resolve_endpoints(Some(point((0.0, 0.0))), Some(point((10.0, 5.0))));
    assert_eq!(start, point((0.0, 0.0)));
    assert_eq!(end, point((10.0, 5.0)));
}

#[test]
fn clamping_intersects_or_passes_through() {
    let b = bbox(-10.0, 10.0, -5.0, 5.0);
    let cut = b.clamp_to(Some((r64(-3.0), r64(20.0), r64(-9.0), r64(2.0))));
    assert_eq!(cut, bbox(-3.0, 10.0, -5.0, 2.0));
    let across = b.clamp_to(Some((r64(170.0), r64(-170.0), r64(-9.0), r64(2.0))));
    assert_eq!(across, bbox(170.0, -170.0, -5.0, 2.0));
    assert!(across.lon_wraps());
    assert_eq!(b.clamp_to(None), b);
    let nothing = b.clamp_to(Some((r64(20.0), r64(30.0), r64(7.0), r64(8.0))));
    assert!(!nothing.is_non_degenerate());
}

#[test]
fn clamping_to_other_longitudes_leaves_nothing() {
    let b = bbox(0.0, 10.0, -5.0, 5.0);
    let east = b.clamp_to(Some((r64(20.0), r64(30.0), r64(-1.0), r64(1.0))));
    assert_eq!(east, bbox(20.0, 20.0, -1.0, 1.0));
    assert!(!east.lon_wraps());
    assert!(!east.is_non_degenerate());
    let west = b.clamp_to(Some((r64(-30.0), r64(-20.0), r64(-1.0), r64(1.0))));
    assert_eq!(west, bbox(0.0, 0.0, -1.0, 1.0));
    assert!(!west.is_non_degenerate());
    assert!(!west.bbox.contains(r64(-25.0), r64(0.0)));
}

#[test]
fn identical_endpoints_returns_none() {
    assert!(derive((0.0, 0.0), (0.0, -0.0), None, None).is_none());
}

#[test]
fn open_ocean_route_pads_around_endpoint_hint() {
    let way = vec![(-30.0, 0.0), (-80.0, -2.0), (-150.0, 0.0)];
    let bounds = derive((-30.0, 0.0), (-150.0, 0.0), Some(way), None).expect("derived");
    let bbox = bounds.bbox;
    assert!(num(bbox.lat_max) >= 3.0);
    assert!(num(bbox.lat_min) <= -3.0);
    assert!(num(bbox.lon_min) <= -30.0);
    assert!(num(bbox.lon_max) >= -30.0 - 3.0);
    assert!(!bounds.lon_wraps());
}

#[test]
fn route_around_continent_uses_astar_bbox() {
    let origin = (-5.5, 36.0);
    let dest = (32.0, 30.0);
    let way = vec![origin, (9.0, 38.0), (20.0, 35.0), dest];
    let bbox = derive(origin, dest, Some(way), None).expect("derived").bbox;
    assert!(num(bbox.lat_min) <= 30.0);
    assert!(num(bbox.lat_max) >= 36.0);
    assert!(num(bbox.lon_min) <= -5.5);
    assert!(num(bbox.lon_max) >= 32.0);
}

#[test]
fn antimeridian_route_produces_wrapping_bbox() {
    let origin = (139.7, 35.7);
    let dest = (-122.4, 37.8);
    let way = vec![origin, (170.0, 44.0), (-160.0, 45.0), dest];
    let bounds = derive(origin, dest, Some(way), None).expect("derived");
    let bbox = bounds.bbox;
    let (west, east) = (num(bbox.lon_min), num(bbox.lon_max));
    assert!(bounds.lon_wraps(), "Tokyo to SF auto-bbox must wrap, got [{west}, {east}]");
    let in_bbox = |lon: f64| lon >= west || lon <= east;
    assert!(in_bbox(origin.0), "origin lon {} not in {:?}", origin.0, west..east);
    assert!(in_bbox(dest.0), "dest lon {} not in {:?}", dest.0, west..east);
}

#[test]
fn padded_bbox_is_well_formed() {
    let way = vec![(10.0, 5.0), (20.0, 10.0)];
    let bounds = derive((10.0, 5.0), (20.0, 10.0), Some(way), None).expect("derived");
    assert!(bounds.is_non_degenerate());
}

#[test]
fn straight_routes_are_padded() {
    let b = derive((10.0, 5.0), (20.0, 10.0), None, None).expect("derived");
    assert_eq!(b, bbox(7.0, 23.0, 2.0, 13.0));
    assert!(b.is_non_degenerate());
}

#[test]
fn a_way_by_sea_widens_the_area() {
    let way = vec![(-5.5, 36.0), (5.0, 40.0), (20.0, 34.0), (32.0, 30.0)];
    let b = derive((-5.5, 36.0), (32.0, 30.0), Some(way), None).expect("derived");
    assert_eq!(b, bbox(-13.0, 39.5, 27.0, 43.0));
}

#[test]
fn routes_over_the_antimeridian_make_wrapping_areas() {
    let b = derive((139.7, 35.7), (-122.4, 37.8), None, None).expect("derived");
    assert!(b.lon_wraps());
    for lon in [139.7, -122.4] {
        assert!(lon >= num(b.bbox.lon_min) || lon <= num(b.bbox.lon_max), "{lon}");
    }
}

#[test]
fn areas_stay_off_the_poles_and_do_not_overlap() {
    let way = vec![(-170.0, 89.0), (-60.0, 0.0), (60.0, -89.0), (170.0, 0.0)];
    let b = derive((-170.0, 89.0), (170.0, 0.0), Some(way), None).expect("derived");
    assert_eq!(b, bbox(-180.0, 180.0, -89.99, 89.99));
}

#[test]
fn clamp_intersects_with_supplied_bounds() {
    let clamp = bbox(-100.0, -40.0, -10.0, 10.0);
    let b = derive((-30.0, 0.0), (-150.0, 0.0), None, Some(clamp)).expect("derived").bbox;
    assert!(num(b.lon_min) >= -100.0);
    assert!(num(b.lon_max) <= -40.0);
    assert!(num(b.lat_min) >= -10.0);
    assert!(num(b.lat_max) <= 10.0);
}

#[test]
fn format_bbox_flag_round_trips_via_cli_parser() {
    let s = format_bbox_flag(bbox(-75.0, -10.0, 25.0, 60.0), &|v: Real| format!("{:.4}", num(v)));
    assert_eq!(s, "-75.0000,25.0000,-10.0000,60.0000");
}

#[test]
fn rectangles_hold_their_edges() {
    let plain = bbox(-5.0, 15.0, 1.0, 9.0).bbox;
    assert!(plain.contains(r64(-5.0), r64(9.0)));
    assert!(!plain.contains(r64(-5.1), r64(9.0)));
    let across = bbox(170.0, -170.0, -1.0, 1.0).bbox;
    assert!(across.contains(r64(180.0), r64(0.0)));
    assert!(across.contains(r64(-175.0), r64(0.0)));
    assert!(!across.contains(r64(0.0), r64(0.0)));
}
