use bywind::bounds::LonLatBbox;
use bywind::landmass::distance::distance_transform;
use bywind::landmass::grid::{astar_sea_path, bias_allows, signed_dist_sq, LandmassGrid, SeaPathBias};
use bywind::landmass::patches::merge_overlapping_bboxes;
use bywind::landmass::raster::{
    apply_strait_carve_outs, compute_gradient, open_ring, point_in_polygon, polygon_bbox,
    rasterise_mask, strait_legs, Leg, Polygon,
};
use bywind::landmass::shapes::{clamp_latitudes, polygons_of, sea_line, strait_boxes, Geometry};
use bywind::landmass::two_tier::{
    astar_sea_path_two_tier, FinePatch, TwoTierCell, TwoTierLandmass,
};
use bywind::number::{Real, Real32};

const METRES_PER_DEGREE: f64 = 111_320.0;

fn r64(v: f64) -> Real {
    Real { bits: v.to_bits() }
}

fn num(v: Real) -> f64 {
    f64::from_bits(v.bits)
}

fn num32(v: Real32) -> f32 {
    f32::from_bits(v.bits)
}

fn bbox(lon_min: f64, lon_max: f64, lat_min: f64, lat_max: f64) -> LonLatBbox {
    LonLatBbox::new(r64(lon_min), r64(lon_max), r64(lat_min), r64(lat_max))
}

fn haversine(a: (f64, f64), b: (f64, f64)) -> f64 {
    let (lat_a, lat_b) = (a.1.to_radians(), b.1.to_radians());
    let (dlat, dlon) = (lat_b - lat_a, (b.0 - a.0).to_radians());
    let h = (dlat / 2.0).sin().powi(2) + lat_a.cos() * lat_b.cos() * (dlon / 2.0).sin().powi(2);
    2.0 * 6_371_000.0 * h.sqrt().asin()
}

/// A global grid of cells, and where they are.
struct World {
    grid: LandmassGrid,
    deg: f64,
}

impl World {
    fn new(deg: f64, is_land: impl Fn(f64, f64) -> bool) -> World {
        let (width, height) = ((360.0 / deg).round() as usize, (180.0 / deg).round() as usize);
        let mut mask = vec![false; width * height];
        for j in 0..height {
            for i in 0..width {
                mask[j * width + i] =
                    is_land(-180.0 + (i as f64 + 0.5) * deg, -90.0 + (j as f64 + 0.5) * deg);
            }
        }
        let metres = |sq: i64| {
            let m = (sq.unsigned_abs() as f64).sqrt() * deg * METRES_PER_DEGREE;
            Real32 { bits: (if sq < 0 { -m } else { m } as f32).to_bits() }
        };
        World { grid: LandmassGrid::from_mask(&mask, width, height, &metres), deg }
    }

    fn centre(&self, c: usize) -> (f64, f64) {
        let w = self.grid.dims().0;
        (-180.0 + ((c % w) as f64 + 0.5) * self.deg, -90.0 + ((c / w) as f64 + 0.5) * self.deg)
    }

    fn cell_at(&self, p: (f64, f64)) -> usize {
        let fi = (p.0 + 180.0).rem_euclid(360.0) / self.deg;
        let fj = (p.1 + 90.0) / self.deg;
        let (i, j) = self.grid.cell_index_of(fi.floor() as isize, fj.floor() as isize);
        self.grid.cell_idx(i, j)
    }

    fn sdf(&self, p: (f64, f64)) -> f32 {
        let c = self.cell_at(p);
        num32(self.grid.sdf_m[c])
    }

    fn find(
        &self,
        origin: (f64, f64),
        destination: (f64, f64),
        area: LonLatBbox,
        bias: SeaPathBias,
    ) -> Option<Vec<(f64, f64)>> {
        let (from, to) = (self.cell_at(origin), self.cell_at(destination));
        let allowed = |c: usize| {
            let p = self.centre(c);
            let t = ((p.0 - origin.0) / (destination.0 - origin.0)).clamp(0.0, 1.0);
            let line = origin.1 + t * (destination.1 - origin.1);
            bias_allows(bias, r64(p.1 - line)) && area.contains(r64(p.0), r64(p.1))
        };
        let goal = self.grid.snap_to_sea_cell(to)?;
        let extend = |len: Real, a: usize, b: usize| r64(num(len) + haversine(self.centre(a), self.centre(b)));
        let rank = |len: Real, c: usize| r64(num(len) + haversine(self.centre(c), self.centre(goal)));
        let cells = astar_sea_path(&self.grid, from, to, &allowed, &extend, &rank)?;
        let mut line = vec![origin];
        line.extend(cells.iter().map(|c| self.centre(*c)));
        line.push(destination);
        Some(line)
    }
}

fn bar() -> World {
    World::new(1.0, |lon, lat| lon.abs() < 2.0 && lat.abs() < 10.0)
}

fn min_lat(line: &[(f64, f64)]) -> f64 {
    line.iter().map(|p| p.1).fold(f64::INFINITY, f64::min)
}

fn max_lat(line: &[(f64, f64)]) -> f64 {
    line.iter().map(|p| p.1).fold(f64::NEG_INFINITY, f64::max)
}

#[test]
fn synthetic_square_island_signed_distance_signs_correctly() {
    let world = World::new(0.5, |lon, lat| lon.abs() < 1.0 && lat.abs() < 1.0);
    let sd_centre = world.sdf((0.0, 0.0));
    assert!(sd_centre < -50_000.0, "expected deep land, got {sd_centre} m");
    let sd_ocean = world.sdf((60.0, 0.0));
    assert!(sd_ocean > 1_000_000.0, "expected deep ocean, got {sd_ocean} m");
}

#[test]
fn synthetic_square_island_gradient_points_outward() {
    let world = World::new(0.5, |lon, lat| lon.abs() < 2.0 && lat.abs() < 2.0);
    let (width, height) = world.grid.dims();
    let deg = world.deg;
    let slope = |j: usize, s: (Real32, Real32, Real32, Real32)| {
        let lat = -90.0 + (j as f64 + 0.5) * deg;
        let dx = f64::from(num32(s.0) - num32(s.1)) / lat.to_radians().cos().max(1e-9);
        let dy = f64::from(num32(s.2) - num32(s.3));
        let size = dx.hypot(dy);
        let unit = |v: f64| Real32 { bits: (if size > 1e-12 { v / size } else { 0.0 } as f32).to_bits() };
        (unit(dx), unit(dy))
    };
    let grad = compute_gradient(&world.grid.sdf_m, width, height, true, &slope);
    assert!(num32(grad[world.cell_at((5.0, 0.0))].0) > 0.5);
    assert!(num32(grad[world.cell_at((0.0, 5.0))].1) > 0.5);
}

#[test]
fn find_sea_path_routes_around_synthetic_obstacle() {
    let world = bar();
    let line = world
        .find((-10.0, 0.0), (10.0, 0.0), bbox(-30.0, 30.0, -25.0, 25.0), SeaPathBias::Unbiased)
        .expect("path");
    assert!(line.len() > 4, "expected detour, got {line:?}");
    for p in &line {
        assert!(world.sdf(*p) >= 0.0, "polyline point {p:?} on land");
    }
}

#[test]
fn find_sea_path_respects_route_bbox() {
    let world = bar();
    let area = bbox(-30.0, 30.0, -20.0, 9.0);
    let line = world
        .find((-10.0, 0.0), (10.0, 0.0), area, SeaPathBias::Unbiased)
        .expect("south detour should be reachable inside the bbox");
    for p in &line[1..line.len() - 1] {
        assert!(area.contains(r64(p.0), r64(p.1)), "polyline vertex {p:?} outside");
    }
    assert!(min_lat(&line) < -9.0, "expected south detour, got {}", min_lat(&line));
    assert!(max_lat(&line) <= 9.0, "no vertex should exceed 9, got {}", max_lat(&line));
}

#[test]
fn biased_sea_paths_take_opposite_sides_of_obstacle() {
    let world = bar();
    let area = bbox(-30.0, 30.0, -25.0, 25.0);
    let north = world.find((-10.0, 0.0), (10.0, 0.0), area, SeaPathBias::North).expect("north path");
    let south = world.find((-10.0, 0.0), (10.0, 0.0), area, SeaPathBias::South).expect("south path");
    assert!(max_lat(&north) > 9.0, "max lat = {}", max_lat(&north));
    assert!(min_lat(&south) < -9.0, "min lat = {}", min_lat(&south));
}

#[test]
fn find_sea_path_returns_none_when_endpoints_landlocked() {
    let world = World::new(1.0, |lon, lat| !(lon.abs() < 2.0 && lat.abs() < 2.0));
    let area = bbox(-90.0, 90.0, -60.0, 60.0);
    assert!(world.find((60.0, 30.0), (-60.0, -30.0), area, SeaPathBias::Unbiased).is_none());
}

#[test]
fn ends_in_one_cell_make_an_empty_route() {
    let world = bar();
    let area = bbox(-30.0, 30.0, -25.0, 25.0);
    let line = world.find((20.1, 5.1), (20.4, 5.3), area, SeaPathBias::Unbiased).unwrap();
    assert_eq!(line.len(), 2);
}

#[test]
fn offsets_lead_to_the_seed() {
    let mut seeds = vec![false; 7 * 5];
    seeds[2 * 7 + 3] = true;
    let offsets = distance_transform(&seeds, 7, 5, false);
    for j in 0..5i32 {
        for i in 0..7i32 {
            let (dx, dy) = offsets[(j * 7 + i) as usize];
            assert_eq!((dx.abs(), dy.abs()), ((i - 3).abs(), (j - 2).abs()));
        }
    }
}

#[test]
fn offsets_go_the_shorter_way_round() {
    let seeds = [false, false, false, true, false];
    assert_eq!(distance_transform(&seeds, 5, 1, true)[0], (2, 0));
    assert_eq!(distance_transform(&seeds, 5, 1, false)[0], (-3, 0));
    let none = distance_transform(&[false; 6], 3, 2, true);
    assert!(none.iter().all(|o| *o == (16_777_216, 16_777_216)));
}

#[test]
fn no_seed_is_nearer() {
    let (w, h) = (9i32, 7i32);
    let seeds: Vec<bool> = (0..w * h).map(|c| (c * 37 + 11) % 13 == 0).collect();
    for wrap in [false, true] {
        let offsets = distance_transform(&seeds, w as usize, h as usize, wrap);
        for (c, o) in offsets.iter().enumerate() {
            let (i, j) = (c as i32 % w, c as i32 / w);
            let least = (0..w * h)
                .filter(|s| seeds[*s as usize])
                .map(|s| {
                    let d = (i - s % w).abs();
                    let d = if wrap { d.min(w - d) } else { d };
                    d * d + (j - s / w) * (j - s / w)
                })
                .min()
                .unwrap();
            assert_eq!(o.0 * o.0 + o.1 * o.1, least);
        }
    }
}

#[test]
fn squares_are_negative_over_land() {
    let mask = vec![false, true, true, true, false];
    assert_eq!(signed_dist_sq(&mask, 5, 1, false), vec![1, -1, -4, -1, 1]);
}

#[test]
fn overlapping_rectangles_are_merged() {
    let boxes = vec![
        bbox(0.0, 2.0, 0.0, 2.0),
        bbox(10.0, 11.0, 0.0, 1.0),
        bbox(2.0, 4.0, 1.0, 3.0),
        bbox(4.0, 5.0, 3.0, 6.0),
    ];
    let merged = merge_overlapping_bboxes(boxes);
    assert_eq!(merged.len(), 2);
    assert!(merged.contains(&bbox(0.0, 5.0, 0.0, 6.0)));
    assert!(merged.contains(&bbox(10.0, 11.0, 0.0, 1.0)));
}

fn meet(a: (Real, Real), b: (Real, Real), lat: Real) -> Real {
    r64(num(a.0) + (num(lat) - num(a.1)) * (num(b.0) - num(a.0)) / (num(b.1) - num(a.1)))
}

fn ring(points: &[(f64, f64)]) -> Vec<(Real, Real)> {
    points.iter().map(|p| (r64(p.0), r64(p.1))).collect()
}

fn lake() -> Polygon {
    Polygon {
        rings: vec![
            ring(&[(0.0, 0.0), (10.0, 0.0), (10.0, 10.0), (0.0, 10.0)]),
            ring(&[(4.0, 4.0), (6.0, 4.0), (6.0, 6.0), (4.0, 6.0)]),
        ],
    }
}

#[test]
fn closed_outlines_are_opened() {
    let closed = ring(&[(0.0, 0.0), (1.0, 0.0), (1.0, 1.0), (0.0, -0.0)]);
    assert_eq!(open_ring(closed).len(), 3);
    let open = ring(&[(0.0, 0.0), (1.0, 0.0), (1.0, 1.0)]);
    assert_eq!(open_ring(open.clone()), open);
    assert_eq!(open_ring(ring(&[(3.0, 4.0)])).len(), 1);
}

#[test]
fn holes_are_not_covered() {
    let p = lake();
    assert_eq!(polygon_bbox(&p), bbox(0.0, 10.0, 0.0, 10.0));
    assert!(point_in_polygon((r64(2.0), r64(2.0)), &p, &meet));
    assert!(!point_in_polygon((r64(5.0), r64(5.0)), &p, &meet));
    assert!(!point_in_polygon((r64(12.0), r64(2.0)), &p, &meet));
    let line = Polygon { rings: vec![ring(&[(0.0, 0.0), (9.0, 9.0)])] };
    assert!(!point_in_polygon((r64(0.1), r64(1.0)), &line, &meet));
}

#[test]
fn polygons_are_drawn_and_straits_opened() {
    // Cells of one degree from (-1, -1) on.
    let (width, height) = (13usize, 12usize);
    let span = |b: LonLatBbox| {
        let first = |v: Real| (num(v) + 1.0 - 0.5).ceil().max(0.0) as usize;
        let end = |v: Real| ((num(v) + 1.0 - 0.5).floor() + 1.0).max(0.0) as usize;
        (first(b.lon_min), end(b.lon_max), first(b.lat_min), end(b.lat_max))
    };
    let centre = |i: usize, j: usize| (r64(i as f64 - 0.5), r64(j as f64 - 0.5));
    let mut mask = rasterise_mask(&vec![lake()], width, height, &span, &centre, &meet);
    let at = |mask: &Vec<bool>, lon: i32, lat: i32| mask[((lat + 1) * 13 + lon + 1) as usize];
    assert_eq!(mask.iter().filter(|m| **m).count(), 100 - 4);
    assert!(at(&mask, 0, 0) && at(&mask, 9, 9));
    assert!(!at(&mask, 4, 5) && !at(&mask, 10, 0));

    let legs = strait_legs(&ring(&[(0.0, 2.5), (9.0, 2.5)]));
    assert_eq!(legs.len(), 1);
    let rows = |leg: Leg| (0isize, 12isize, num(leg.0 .1) as isize + 1, num(leg.1 .1) as isize + 1);
    apply_strait_carve_outs(&mut mask, width, height, false, &legs, &rows, &|_: Leg, _: (isize, usize)| true);
    for lon in 0..10 {
        assert!(!at(&mask, lon, 2));
        assert!(at(&mask, lon, 1) && at(&mask, lon, 3));
    }
}

#[test]
fn the_first_of_equally_near_sea_cells_is_taken() {
    let sdf = |land: &[usize]| -> Vec<Real32> {
        (0..49).map(|c| Real32 { bits: (if land.contains(&c) { -1.0f32 } else { 1.0 }).to_bits() }).collect()
    };
    let centre = 3 * 7 + 3;
    let grid = LandmassGrid::from_sdf(7, 7, sdf(&[centre]));
    assert_eq!(grid.snap_to_sea_cell(centre), Some(2 * 7 + 2));
    assert_eq!(grid.snap_to_sea_cell(0), Some(0));
    let block: Vec<usize> = (2..5).flat_map(|j| (2..5).map(move |i| j * 7 + i)).collect();
    let grid = LandmassGrid::from_sdf(7, 7, sdf(&block));
    assert_eq!(grid.snap_to_sea_cell(centre), Some(7 + 1));
    let only_east: Vec<usize> = (0..49).filter(|c| *c != 3 * 7 + 4 && *c != 4 * 7 + 4).collect();
    let grid = LandmassGrid::from_sdf(7, 7, sdf(&only_east));
    assert_eq!(grid.snap_to_sea_cell(centre), Some(3 * 7 + 4));
    let none: Vec<usize> = (0..49).collect();
    assert_eq!(LandmassGrid::from_sdf(7, 7, sdf(&none)).snap_to_sea_cell(centre), None);
}

#[test]
fn merged_areas_stand_where_the_first_stood() {
    let a = bbox(0.0, 1.0, 0.0, 1.0);
    let b = bbox(10.0, 11.0, 0.0, 1.0);
    let c = bbox(0.5, 2.0, 0.0, 3.0);
    let d = bbox(20.0, 21.0, 0.0, 1.0);
    let e = bbox(30.0, 31.0, 0.0, 1.0);
    assert_eq!(merge_overlapping_bboxes(vec![a, b, c, d, e]), [bbox(0.0, 2.0, 0.0, 3.0), b, e, d]);
    // The first union comes to overlap what neither of its parts did.
    let far = bbox(1.5, 10.5, 2.0, 4.0);
    assert_eq!(merge_overlapping_bboxes(vec![a, c, far]), [bbox(0.0, 10.5, 0.0, 4.0)]);
}

#[test]
fn areas_end_at_the_poles() {
    let area = clamp_latitudes(bbox(-10.0, 10.0, -95.0, 95.0));
    assert_eq!(area, bbox(-10.0, 10.0, -90.0, 90.0));
    assert_eq!(clamp_latitudes(bbox(1.0, 2.0, 3.0, 4.0)), bbox(1.0, 2.0, 3.0, 4.0));
}

#[test]
fn carving_wraps_round_the_globe() {
    let legs = strait_legs(&ring(&[(0.0, 0.0)]));
    assert_eq!(legs.len(), 1);
    let near = |_: Leg, _: (isize, usize)| true;
    let around = |_: Leg| (-1isize, 1isize, -5isize, 0isize);
    let mut round = vec![true; 8];
    apply_strait_carve_outs(&mut round, 4, 2, true, &legs, &around, &near);
    assert_eq!(round, vec![false, false, true, false, true, true, true, true]);
    let mut flat = vec![true; 8];
    apply_strait_carve_outs(&mut flat, 4, 2, false, &legs, &around, &near);
    assert_eq!(flat, vec![false, false, true, true, true, true, true, true]);
    // A cell just west of the edge is near a leg just east of it.
    let close = |_: Leg, cell: (isize, usize)| (-1..=0).contains(&cell.0);
    let mut narrow = vec![true; 8];
    apply_strait_carve_outs(&mut narrow, 4, 2, true, &legs, &around, &close);
    assert_eq!(narrow, vec![false, true, true, false, true, true, true, true]);
    assert!(strait_legs(&Vec::new()).is_empty());
    assert_eq!(strait_legs(&ring(&[(0.0, 0.0), (1.0, 1.0), (2.0, 2.0)])).len(), 2);
}

#[test]
fn cells_of_two_tiers_are_numbered_through() {
    let sea = |n: usize| vec![Real32 { bits: 1.0f32.to_bits() }; n];
    let coarse = LandmassGrid::from_sdf(4, 2, sea(8));
    let patch = FinePatch::from_sdf(bbox(0.0, 1.0, 0.0, 1.0), 3, 2, sea(6));
    assert_eq!(patch.corners_of(1, 0), (1, 2, 0, 1));
    assert_eq!(patch.corners_of(2, 1), (2, 2, 1, 1));
    let t = TwoTierLandmass::new(coarse, vec![patch]);
    assert_eq!(t.total_cells(), 14);
    for c in 0..14 {
        assert_eq!(t.encode_cell(t.decode_cell(c)), c);
    }
    assert_eq!(t.decode_cell(8 + 4), TwoTierCell::Fine { patch: 0, i: 1, j: 1 });
    assert_eq!(t.active_patch(r64(0.5), r64(0.5)), Some(0));
    assert_eq!(t.active_patch(r64(1.5), r64(0.5)), None);
}

#[test]
fn routes_hop_between_tiers() {
    // A strip of four coarse cells; the third is covered by two fine ones.
    let at = |v: f32| Real32 { bits: v.to_bits() };
    let coarse = LandmassGrid::from_sdf(4, 1, vec![at(1.0), at(1.0), at(-1.0), at(1.0)]);
    let patch = FinePatch::from_sdf(bbox(2.0, 3.0, 0.0, 1.0), 2, 1, vec![at(1.0), at(1.0)]);
    let t = TwoTierLandmass::new(coarse, vec![patch]);
    // In order from west to east: coarse 0, coarse 1, fine 4, fine 5, coarse 3.
    let order = [0usize, 1, 4, 5, 3];
    let locate = |c: usize, di: i32, dj: i32| {
        let k = order.iter().position(|o| *o == c)? as i32 + di;
        if dj != 0 || k < 0 || k > 4 { None } else { Some(order[k as usize]) }
    };
    let allowed = |_: usize| true;
    let extend = |len: Real, _: usize, _: usize| r64(num(len) + 1.0);
    let rank = |len: Real, _: usize| len;
    let route = astar_sea_path_two_tier(&t, 0, 3, &locate, &allowed, &extend, &rank).unwrap();
    assert_eq!(route, vec![0, 1, 4, 5, 3]);
}

#[test]
fn shapes_become_polygons() {
    let closed = ring(&[(0.0, 0.0), (4.0, 0.0), (4.0, 4.0), (0.0, 0.0)]);
    let shapes = vec![
        Geometry::Polygon { coordinates: vec![closed.clone(), closed.clone()] },
        Geometry::Other,
        Geometry::MultiPolygon { coordinates: vec![vec![closed.clone()], vec![closed.clone(), closed]] },
    ];
    let polygons = polygons_of(shapes);
    let counts: Vec<usize> = polygons.iter().map(|p| p.rings.len()).collect();
    assert_eq!(counts, vec![2, 1, 2]);
    assert!(polygons.iter().all(|p| p.rings.iter().all(|r| r.len() == 3)));
}

#[test]
fn straits_have_boxes() {
    let strait = Polygon { rings: vec![ring(&[(1.0, 5.0), (3.0, 2.0), (2.0, 4.0)])] };
    let padded = |b: LonLatBbox| {
        bbox(num(b.lon_min) - 1.0, num(b.lon_max) + 1.0, num(b.lat_min) - 1.0, num(b.lat_max) + 1.0)
    };
    assert_eq!(strait_boxes(&vec![strait], &padded), vec![bbox(0.0, 4.0, 1.0, 6.0)]);
}

#[test]
fn lines_lead_through_cells() {
    let centre = |c: usize| (r64(c as f64), r64(0.5));
    let (a, b) = ((r64(-1.0), r64(0.0)), (r64(9.0), r64(1.0)));
    let line = sea_line(a, b, &vec![2, 3], &centre);
    assert_eq!(line, vec![a, (r64(2.0), r64(0.5)), (r64(3.0), r64(0.5)), b]);
}

#[test]
fn grids_are_made_of_polygons_and_straits() {
    // Cells of 30 degrees; land covers the middle four columns but for one row of a strait.
    let (width, height) = (12usize, 6usize);
    let land = Polygon {
        rings: vec![ring(&[(-60.0, -90.0), (60.0, -90.0), (60.0, 90.0), (-60.0, 90.0)])],
    };
    let legs = strait_legs(&ring(&[(-60.0, 15.0), (60.0, 15.0)]));
    let span = |_: LonLatBbox| (0usize, 12usize, 0usize, 6usize);
    let centre = |i: usize, j: usize| {
        (r64(-180.0 + (i as f64 + 0.5) * 30.0), r64(-90.0 + (j as f64 + 0.5) * 30.0))
    };
    let reach = |_: Leg| (0isize, 11isize, 3isize, 3isize);
    let near = |_: Leg, _: (isize, usize)| true;
    let metres = |sq: i64| Real32 { bits: (sq as f32).to_bits() };
    let grid = LandmassGrid::build(
        &vec![land.clone()],
        &legs,
        width,
        height,
        &span,
        &centre,
        &meet,
        &reach,
        &near,
        &metres,
    );
    assert!(!grid.is_sea(5, 0) && !grid.is_sea(4, 2) && grid.is_sea(0, 0));
    assert!((0..12).all(|i| grid.is_sea(i, 3)));
    assert_eq!(num32(grid.sdf_at_cell(3, 0)), 1.0);
    let patch = FinePatch::build(
        bbox(-180.0, 180.0, -90.0, 90.0),
        &vec![land],
        &legs,
        width,
        height,
        &span,
        &centre,
        &meet,
        &reach,
        &near,
        &metres,
    );
    assert_eq!(patch.bbox(), bbox(-180.0, 180.0, -90.0, 90.0));
    assert_eq!(num32(patch.sdf_at_cell(0, 0)), 16.0);
}
