//! What holds of outlines and the points that they enclose.
use crate::bounds;
use crate::bounds::LonLatBbox;
use crate::given;
use crate::landmass::places;
use crate::landmass::raster;
use crate::landmass::raster::{Leg, Polygon};
use crate::landmass::shapes;
use crate::number::{Real, Real32};
use vstd::prelude::*;

verus! {

/// Whether `meet` tells the same longitude for a side whichever end comes first.
pub open spec fn even_handed<M: Fn((Real, Real), (Real, Real), Real) -> Real>(meet: M) -> bool {
    forall|a: (Real, Real), b: (Real, Real), lat: Real| #[trigger]
        given::gives3(meet, a, b, lat) == given::gives3(meet, b, a, lat)
}

/// A triangle with one corner on the other side of a point's latitude than the two others
/// encloses the point just if the point is west of one of the two sides at that corner
/// and not west of the other.
pub proof fn law_triangle_encloses_between_its_sides<
    M: Fn((Real, Real), (Real, Real), Real) -> Real,
>(a: (Real, Real), b: (Real, Real), c: (Real, Real), at: (Real, Real), meet: M)
    requires
        at.1.below(a.1) != at.1.below(b.1),
        at.1.below(b.1) == at.1.below(c.1),
    ensures
        raster::encloses(seq![a, b, c], at, meet) <==> at.0.below(
            given::gives3(meet, a, b, at.1),
        ) != at.0.below(given::gives3(meet, c, a, at.1)),
        raster::encloses(seq![b, c, a], at, meet) <==> at.0.below(
            given::gives3(meet, a, b, at.1),
        ) != at.0.below(given::gives3(meet, c, a, at.1)),
        raster::encloses(seq![c, a, b], at, meet) <==> at.0.below(
            given::gives3(meet, a, b, at.1),
        ) != at.0.below(given::gives3(meet, c, a, at.1)),
{
    reveal_with_fuel(raster::crossings, 4);
    vstd::arithmetic::div_mod::lemma_small_mod(1, 3);
    vstd::arithmetic::div_mod::lemma_small_mod(2, 3);
    vstd::arithmetic::div_mod::lemma_mod_self_0(3);
}

/// A triangle encloses no point south of all its corners, nor one that is not south of any.
pub proof fn law_triangle_encloses_within_its_latitudes<
    M: Fn((Real, Real), (Real, Real), Real) -> Real,
>(a: (Real, Real), b: (Real, Real), c: (Real, Real), at: (Real, Real), meet: M)
    requires
        at.1.below(a.1) == at.1.below(b.1),
        at.1.below(b.1) == at.1.below(c.1),
    ensures
        !raster::encloses(seq![a, b, c], at, meet),
{
    reveal_with_fuel(raster::crossings, 4);
    vstd::arithmetic::div_mod::lemma_small_mod(1, 3);
    vstd::arithmetic::div_mod::lemma_small_mod(2, 3);
    vstd::arithmetic::div_mod::lemma_mod_self_0(3);
}

/// Fewer than three points enclose nothing.
pub proof fn law_two_points_enclose_nothing<M: Fn((Real, Real), (Real, Real), Real) -> Real>(
    ring: Seq<(Real, Real)>,
    at: (Real, Real),
    meet: M,
)
    requires
        ring.len() < 3,
    ensures
        !raster::encloses(ring, at, meet),
{
}

/// Outlines with the same sides up to side `n` have the same crossings up to there.
proof fn lemma_same_front<M: Fn((Real, Real), (Real, Real), Real) -> Real>(
    r: Seq<(Real, Real)>,
    s: Seq<(Real, Real)>,
    n: int,
    at: (Real, Real),
    meet: M,
)
    requires
        0 <= n < r.len(),
        n < s.len(),
        forall|k: int| 0 <= k <= n ==> r[k] == s[k],
    ensures
        raster::crossings(r, n, at, meet) == raster::crossings(s, n, at, meet),
    decreases n,
{
    if n > 0 {
        lemma_same_front(r, s, n - 1, at, meet);
        vstd::arithmetic::div_mod::lemma_small_mod(n as nat, r.len());
        vstd::arithmetic::div_mod::lemma_small_mod(n as nat, s.len());
        assert(r[n - 1] == s[n - 1]);
        assert(r[n] == s[n]);
    }
}

/// A corner more adds or takes away the triangle between it and the ends of the outline:
/// a point is enclosed by the longer outline just if one of the two encloses it, and not
/// both.
pub proof fn law_corner_adds_a_triangle<M: Fn((Real, Real), (Real, Real), Real) -> Real>(
    ring: Seq<(Real, Real)>,
    c: (Real, Real),
    at: (Real, Real),
    meet: M,
)
    requires
        ring.len() >= 3,
        even_handed(meet),
    ensures
        raster::encloses(ring.push(c), at, meet) <==> raster::encloses(ring, at, meet)
            != raster::encloses(seq![ring.last(), c, ring.first()], at, meet),
{
    let n = ring.len() as int;
    let long = ring.push(c);
    let t = seq![ring.last(), c, ring.first()];
    lemma_same_front(ring, long, n - 1, at, meet);
    vstd::arithmetic::div_mod::lemma_mod_self_0(n);
    vstd::arithmetic::div_mod::lemma_mod_self_0(n + 1);
    vstd::arithmetic::div_mod::lemma_small_mod(n as nat, (n + 1) as nat);
    reveal_with_fuel(raster::crossings, 4);
    vstd::arithmetic::div_mod::lemma_small_mod(1, 3);
    vstd::arithmetic::div_mod::lemma_small_mod(2, 3);
    vstd::arithmetic::div_mod::lemma_mod_self_0(3);
    assert(given::gives3(meet, ring.last(), ring.first(), at.1) == given::gives3(
        meet,
        ring.first(),
        ring.last(),
        at.1,
    ));
    assert(raster::crosses(ring, n - 1, at, meet) == raster::crosses(t, 2, at, meet));
    assert(raster::crosses(long, n - 1, at, meet) == raster::crosses(t, 0, at, meet));
    assert(raster::crosses(long, n, at, meet) == raster::crosses(t, 1, at, meet));
    assert(raster::crossings(long, n + 1, at, meet) == raster::crossings(ring, n - 1, at, meet)
        + (if raster::crosses(long, n - 1, at, meet) {
        1nat
    } else {
        0
    }) + (if raster::crosses(long, n, at, meet) {
        1nat
    } else {
        0
    }));
}

/// Crossings of an outline and of its reverse, counted from opposite ends, add up.
proof fn lemma_reversed<M: Fn((Real, Real), (Real, Real), Real) -> Real>(
    ring: Seq<(Real, Real)>,
    n: int,
    at: (Real, Real),
    meet: M,
)
    requires
        ring.len() >= 3,
        0 <= n < ring.len(),
        even_handed(meet),
    ensures
        raster::crossings(ring.reverse(), n, at, meet) + raster::crossings(
            ring,
            ring.len() - 1 - n,
            at,
            meet,
        ) == raster::crossings(ring, ring.len() - 1, at, meet),
    decreases n,
{
    let len = ring.len() as int;
    if n > 0 {
        lemma_reversed(ring, n - 1, at, meet);
        let back = ring.reverse();
        vstd::arithmetic::div_mod::lemma_small_mod(n as nat, len as nat);
        vstd::arithmetic::div_mod::lemma_small_mod((len - n) as nat, len as nat);
        assert(back[n - 1] == ring[len - n]);
        assert(back[n] == ring[len - 1 - n]);
        assert(given::gives3(meet, back[n - 1], back[n], at.1) == given::gives3(
            meet,
            back[n],
            back[n - 1],
            at.1,
        ));
        assert(raster::crosses(back, n - 1, at, meet) == raster::crosses(
            ring,
            len - 1 - n,
            at,
            meet,
        ));
    }
}

/// An outline encloses the same points whichever way round its points are listed.
pub proof fn law_reversed_outline_encloses_the_same<
    M: Fn((Real, Real), (Real, Real), Real) -> Real,
>(ring: Seq<(Real, Real)>, at: (Real, Real), meet: M)
    requires
        even_handed(meet),
    ensures
        raster::encloses(ring.reverse(), at, meet) == raster::encloses(ring, at, meet),
{
    if ring.len() >= 3 {
        let len = ring.len() as int;
        let back = ring.reverse();
        lemma_reversed(ring, len - 1, at, meet);
        vstd::arithmetic::div_mod::lemma_mod_self_0(len);
        assert(given::gives3(meet, back[len - 1], back[0], at.1) == given::gives3(
            meet,
            back[0],
            back[len - 1],
            at.1,
        ));
        assert(raster::crosses(back, len - 1, at, meet) == raster::crosses(
            ring,
            len - 1,
            at,
            meet,
        ));
        assert(raster::crossings(ring, 0, at, meet) == 0);
    }
}

/// A polygon without outlines covers nothing.
pub proof fn law_no_outline_covers_nothing<M: Fn((Real, Real), (Real, Real), Real) -> Real>(
    p: Polygon,
    at: (Real, Real),
    meet: M,
)
    requires
        p.rings@.len() == 0,
    ensures
        !raster::covers(p, at, meet),
{
}

/// The count over outlines depends on those outlines alone.
proof fn lemma_same_outlines<M: Fn((Real, Real), (Real, Real), Real) -> Real>(
    r: Seq<Vec<(Real, Real)>>,
    s: Seq<Vec<(Real, Real)>>,
    n: int,
    at: (Real, Real),
    meet: M,
)
    requires
        0 <= n <= r.len(),
        n <= s.len(),
        forall|k: int| 0 <= k < n ==> r[k] == s[k],
    ensures
        raster::enclosing(r, n, at, meet) == raster::enclosing(s, n, at, meet),
    decreases n,
{
    if n > 0 {
        lemma_same_outlines(r, s, n - 1, at, meet);
    }
}

/// One more outline turns covered into not covered and back at the points that it
/// encloses, and changes nothing elsewhere.
pub proof fn law_outline_turns_what_it_encloses<M: Fn((Real, Real), (Real, Real), Real) -> Real>(
    p: Polygon,
    q: Polygon,
    ring: Vec<(Real, Real)>,
    at: (Real, Real),
    meet: M,
)
    requires
        q.rings@ == p.rings@.push(ring),
    ensures
        raster::covers(q, at, meet) <==> raster::covers(p, at, meet) != raster::encloses(
            ring@,
            at,
            meet,
        ),
{
    lemma_same_outlines(p.rings@, q.rings@, p.rings@.len() as int, at, meet);
}

/// A polygon makes no cell land outside the columns and rows that its extent spans, and
/// there just those whose centres it covers.
pub proof fn law_polygon_makes_covered_cells_land<
    S: Fn(LonLatBbox) -> (usize, usize, usize, usize),
    C: Fn(usize, usize) -> (Real, Real),
    M: Fn((Real, Real), (Real, Real), Real) -> Real,
>(p: Polygon, i: usize, j: usize, span: S, centre: C, meet: M)
    ensures
        ({
            let (i0, i1, j0, j1) = given::gives1(span, raster::extent(p));
            raster::lies_in(p, i as int, j as int, span, centre, meet) <==> i0 <= i && i < i1 && j0
                <= j && j < j1 && raster::covers(p, given::gives2(centre, i, j), meet)
        }),
{
}

/// A cell of the mask is land just if a polygon makes it land and no leg of a strait opens
/// it.
pub proof fn law_mask_is_polygons_without_straits<
    S: Fn(LonLatBbox) -> (usize, usize, usize, usize),
    C: Fn(usize, usize) -> (Real, Real),
    M: Fn((Real, Real), (Real, Real), Real) -> Real,
    T: Fn(Leg) -> (isize, isize, isize, isize),
    N: Fn(Leg, (isize, usize)) -> bool,
>(
    polygons: Seq<Polygon>,
    legs: Seq<Leg>,
    w: int,
    h: int,
    lon_wrap: bool,
    span: S,
    centre: C,
    meet: M,
    reach: T,
    near: N,
    i: int,
    j: int,
)
    requires
        0 <= i < w,
        0 <= j < h,
    ensures
        ({
            let mask = shapes::land(
                polygons,
                legs,
                w,
                h,
                lon_wrap,
                span,
                centre,
                meet,
                reach,
                near,
            );
            &&& mask.len() == w * h
            &&& mask[j * w + i] <==> (exists|p: int|
                0 <= p < polygons.len() && #[trigger] raster::lies_in(
                    polygons[p],
                    i,
                    j,
                    span,
                    centre,
                    meet,
                )) && (forall|k: int|
                0 <= k < legs.len() ==> !raster::opens(
                    given::gives1(reach, #[trigger] legs[k]),
                    legs[k],
                    i,
                    j,
                    w,
                    lon_wrap,
                    near,
                ))
        }),
{
    places::lemma_cell_place(w, h, i, j);
    assert(0 <= w * h) by (nonlinear_arith)
        requires
            0 < w,
            0 < h,
    ;
}

/// A leg of a strait opens the cells of its rows that it comes near, in a column of its span
/// counted round the globe; where columns do not wrap, in that column itself.
pub proof fn law_leg_opens_cells_near_it<N: Fn(Leg, (isize, usize)) -> bool>(
    span: (isize, isize, isize, isize),
    leg: Leg,
    i: int,
    j: int,
    w: int,
    lon_wrap: bool,
    near: N,
)
    requires
        0 <= i < w,
    ensures
        raster::opens(span, leg, i, j, w, lon_wrap, near) <==> span.2 <= j <= span.3 && exists|
            c: isize,
        |
            {
                &&& span.0 <= c <= span.1
                &&& if lon_wrap {
                    (c - i) % w == 0
                } else {
                    c == i
                }
                &&& #[trigger] given::gives2(near, leg, (c, j as usize))
            },
{
    if raster::opens(span, leg, i, j, w, lon_wrap, near) {
        let c = choose|c: int|
            span.0 as int <= c < span.1 + 1 && #[trigger] raster::column(c, w, lon_wrap) == Some(i)
                && given::gives2(near, leg, (c as isize, j as usize));
        let d = c as isize;
        if lon_wrap {
            vstd::arithmetic::div_mod::lemma_fundamental_div_mod(c, w);
            assert((c - i) == (c / w) * w) by (nonlinear_arith)
                requires
                    c == w * (c / w) + i,
            ;
            vstd::arithmetic::div_mod::lemma_mod_multiples_basic(c / w, w);
        }
        assert(given::gives2(near, leg, (d, j as usize)));
    }
    if span.2 <= j <= span.3 && exists|c: isize|
        {
            &&& span.0 <= c <= span.1
            &&& if lon_wrap {
                (c - i) % w == 0
            } else {
                c == i
            }
            &&& #[trigger] given::gives2(near, leg, (c, j as usize))
        } {
        let c = choose|c: isize|
            {
                &&& span.0 <= c <= span.1
                &&& if lon_wrap {
                    (c - i) % w == 0
                } else {
                    c == i
                }
                &&& #[trigger] given::gives2(near, leg, (c, j as usize))
            };
        if lon_wrap {
            let q = (c - i) / w;
            vstd::arithmetic::div_mod::lemma_fundamental_div_mod(c - i, w);
            assert(c as int == q * w + i) by (nonlinear_arith)
                requires
                    c - i == w * q,
            ;
            vstd::arithmetic::div_mod::lemma_fundamental_div_mod_converse(c as int, w, q, i);
        }
        assert(raster::column(c as int, w, lon_wrap) == Some(i));
    }
}

/// A strait leads from each of its points to the next; one with a single point stays there.
pub proof fn law_legs_join_points_in_turn(points: Seq<(Real, Real)>, k: int)
    requires
        0 <= k < raster::legs_of(points).len(),
    ensures
        points.len() > 1 ==> raster::legs_of(points).len() == points.len() - 1,
        points.len() == 1 ==> raster::legs_of(points).len() == 1,
        raster::legs_of(points)[k].0 == points[k],
        raster::legs_of(points)[k].1 == points[if k + 1 < points.len() {
            k + 1
        } else {
            k
        }],
{
}

/// No point makes no leg, and every other strait has one.
pub proof fn law_every_strait_has_a_leg(points: Seq<(Real, Real)>)
    ensures
        raster::legs_of(points).len() == 0 <==> points.len() == 0,
{
}

/// The slope at a cell is taken between the cells to its east, west, north and south. At the
/// first and the last column it reaches round the globe where columns wrap, else the cell
/// itself stands in; so it does at the first and the last row.
pub proof fn law_slope_is_between_the_cells_beside(
    sdf: Seq<Real32>,
    w: int,
    h: int,
    lon_wrap: bool,
    c: int,
)
    requires
        0 < w,
        0 < h,
        sdf.len() == w * h,
        0 <= c < sdf.len(),
    ensures
        ({
            let (east, west, north, south) = raster::beside(sdf, w, h, lon_wrap, c);
            &&& east == sdf[if c % w < w - 1 {
                c + 1
            } else if lon_wrap {
                c - (w - 1)
            } else {
                c
            }]
            &&& west == sdf[if c % w > 0 {
                c - 1
            } else if lon_wrap {
                c + (w - 1)
            } else {
                c
            }]
            &&& north == sdf[if c + w < w * h {
                c + w
            } else {
                c
            }]
            &&& south == sdf[if c >= w {
                c - w
            } else {
                c
            }]
        }),
{
    places::lemma_place_of_cell(w, h, c);
    let i = c % w;
    let j = c / w;
    places::lemma_row_bounds(w, h, i, j);
    places::lemma_cell_place(w, h, i, j);
    assert((j - 1) * w == j * w - w && (j + 1) * w == j * w + w && 0 * w == 0) by (nonlinear_arith);
    assert(j + 1 == h ==> j * w + w == w * h) by (nonlinear_arith);
    assert(j + 1 < h ==> j * w + 2 * w <= w * h) by (nonlinear_arith)
        requires
            0 < w,
    ;
    if i > 0 {
        vstd::arithmetic::div_mod::lemma_small_mod((i - 1) as nat, w as nat);
    } else {
        vstd::arithmetic::div_mod::lemma_fundamental_div_mod_converse(-1, w, -1, w - 1);
    }
    if i < w - 1 {
        vstd::arithmetic::div_mod::lemma_small_mod((i + 1) as nat, w as nat);
    } else {
        vstd::arithmetic::div_mod::lemma_mod_self_0(w);
    }
}

/// All points of the first outlines.
proof fn lemma_points_of(rings: Seq<Vec<(Real, Real)>>, r: int, k: int) -> (n: int)
    requires
        0 <= r < rings.len(),
        0 <= k < rings[r]@.len(),
    ensures
        0 <= n < raster::points_of(rings).len(),
        raster::points_of(rings)[n] == rings[r]@[k],
    decreases rings.len(),
{
    if r == rings.len() - 1 {
        raster::points_of(rings.drop_last()).len() + k
    } else {
        lemma_points_of(rings.drop_last(), r, k)
    }
}

/// The extent of a polygon reaches to every point of its outlines that is a number.
pub proof fn law_extent_reaches_every_point(p: Polygon, r: int, k: int)
    requires
        0 <= r < p.rings@.len(),
        0 <= k < p.rings@[r]@.len(),
    ensures
        ({
            let (lon, lat) = p.rings@[r]@[k];
            let b = raster::extent(p);
            &&& !lon.nan() ==> b.lon_min.at_most(lon) && lon.at_most(b.lon_max)
            &&& !lat.nan() ==> b.lat_min.at_most(lat) && lat.at_most(b.lat_max)
        }),
{
    let n = lemma_points_of(p.rings@, r, k);
    let points = raster::points_of(p.rings@);
    let lons = points.map_values(|q: (Real, Real)| q.0);
    let lats = points.map_values(|q: (Real, Real)| q.1);
    bounds::law_least_of_is_least(lons);
    bounds::law_greatest_of_is_greatest(lons);
    bounds::law_least_of_is_least(lats);
    bounds::law_greatest_of_is_greatest(lats);
    assert(lons[n] == p.rings@[r]@[k].0);
    assert(lats[n] == p.rings@[r]@[k].1);
}

/// A point of all outlines is one of some outline.
proof fn lemma_point_has_outline(rings: Seq<Vec<(Real, Real)>>, n: int) -> (rk: (int, int))
    requires
        0 <= n < raster::points_of(rings).len(),
    ensures
        0 <= rk.0 < rings.len(),
        0 <= rk.1 < rings[rk.0]@.len(),
        rings[rk.0]@[rk.1] == raster::points_of(rings)[n],
    decreases rings.len(),
{
    let before = raster::points_of(rings.drop_last());
    if n >= before.len() {
        (rings.len() - 1, n - before.len())
    } else {
        lemma_point_has_outline(rings.drop_last(), n)
    }
}

/// Each side of a polygon's extent is that of a point, or as far out as numbers go.
pub proof fn law_extent_ends_at_points(p: Polygon)
    ensures
        ({
            let b = raster::extent(p);
            &&& (b.lon_min.bits == 0x7FF0_0000_0000_0000 || exists|r: int, k: int|
                0 <= r < p.rings@.len() && 0 <= k < p.rings@[r]@.len() && (
                #[trigger] p.rings@[r]@[k]).0 == b.lon_min)
            &&& (b.lon_max.bits == 0xFFF0_0000_0000_0000 || exists|r: int, k: int|
                0 <= r < p.rings@.len() && 0 <= k < p.rings@[r]@.len() && (
                #[trigger] p.rings@[r]@[k]).0 == b.lon_max)
            &&& (b.lat_min.bits == 0x7FF0_0000_0000_0000 || exists|r: int, k: int|
                0 <= r < p.rings@.len() && 0 <= k < p.rings@[r]@.len() && (
                #[trigger] p.rings@[r]@[k]).1 == b.lat_min)
            &&& (b.lat_max.bits == 0xFFF0_0000_0000_0000 || exists|r: int, k: int|
                0 <= r < p.rings@.len() && 0 <= k < p.rings@[r]@.len() && (
                #[trigger] p.rings@[r]@[k]).1 == b.lat_max)
        }),
{
    let points = raster::points_of(p.rings@);
    let lons = points.map_values(|q: (Real, Real)| q.0);
    let lats = points.map_values(|q: (Real, Real)| q.1);
    bounds::law_least_of_is_least(lons);
    bounds::law_greatest_of_is_greatest(lons);
    bounds::law_least_of_is_least(lats);
    bounds::law_greatest_of_is_greatest(lats);
    let b = raster::extent(p);
    if lons.contains(b.lon_min) {
        let n = choose|n: int| 0 <= n < lons.len() && lons[n] == b.lon_min;
        let (r, k) = lemma_point_has_outline(p.rings@, n);
        assert(p.rings@[r]@[k].0 == b.lon_min);
    }
    if lons.contains(b.lon_max) {
        let n = choose|n: int| 0 <= n < lons.len() && lons[n] == b.lon_max;
        let (r, k) = lemma_point_has_outline(p.rings@, n);
        assert(p.rings@[r]@[k].0 == b.lon_max);
    }
    if lats.contains(b.lat_min) {
        let n = choose|n: int| 0 <= n < lats.len() && lats[n] == b.lat_min;
        let (r, k) = lemma_point_has_outline(p.rings@, n);
        assert(p.rings@[r]@[k].1 == b.lat_min);
    }
    if lats.contains(b.lat_max) {
        let n = choose|n: int| 0 <= n < lats.len() && lats[n] == b.lat_max;
        let (r, k) = lemma_point_has_outline(p.rings@, n);
        assert(p.rings@[r]@[k].1 == b.lat_max);
    }
}

/// Opening an outline takes away its last point where that is the first again, and nothing
/// else.
pub proof fn law_opened_outline_keeps_its_points(ring: Seq<(Real, Real)>, k: int)
    ensures
        ({
            let out = raster::opened(ring);
            &&& out.len() == ring.len() || out.len() + 1 == ring.len()
            &&& 0 <= k < out.len() ==> out[k] == ring[k]
            &&& out.len() + 1 == ring.len() <==> ring.len() >= 2 && ring[0].0.equals(
                ring[ring.len() - 1].0,
            ) && ring[0].1.equals(ring[ring.len() - 1].1)
        }),
{
}

/// A polygon covers with its outlines opened, more of them cover one after another, and what is
/// neither covers nothing. Shapes are gone through in turn.
pub proof fn law_shapes_cover_in_turn(g: shapes::Geometry, rest: Seq<shapes::Geometry>, p: int, r: int)
    ensures
        shapes::all_covered(seq![g] + rest) == g.covered() + shapes::all_covered(rest),
        shapes::all_covered(Seq::empty()).len() == 0,
        match g {
            shapes::Geometry::Polygon { coordinates } => {
                &&& g.covered().len() == 1
                &&& g.covered()[0].len() == coordinates@.len()
                &&& 0 <= r < coordinates@.len() ==> g.covered()[0][r] == raster::opened(
                    coordinates@[r]@,
                )
            },
            shapes::Geometry::MultiPolygon { coordinates } => {
                &&& g.covered().len() == coordinates@.len()
                &&& 0 <= p < coordinates@.len() ==> g.covered()[p].len() == coordinates@[p]@.len()
                &&& 0 <= p < coordinates@.len() && 0 <= r < coordinates@[p]@.len() ==> g.covered()[p][r]
                    == raster::opened(coordinates@[p]@[r]@)
            },
            shapes::Geometry::Other => g.covered().len() == 0,
        },
{
    let all = seq![g] + rest;
    assert(all.skip(1) =~= rest);
    assert(all[0] == g);
}

/// The area round a strait is that of its points, widened.
pub proof fn law_areas_round_straits<P: Fn(LonLatBbox) -> LonLatBbox>(
    straits: Seq<Polygon>,
    padded: P,
    k: int,
)
    requires
        0 <= k < straits.len(),
    ensures
        shapes::widened(straits, padded).len() == straits.len(),
        shapes::widened(straits, padded)[k] == given::gives1(padded, raster::extent(straits[k])),
{
}

} // verus!
