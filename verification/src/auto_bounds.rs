//! The search area of a route, drawn from its ends alone.
//!
//! A way by sea between the ends tells how far a route has to swerve. The area is
//! the extent of that way, and some room on each side.
use crate::bounds::{LonLatBbox, MapBounds};
use crate::given;
use crate::number::Real;
use vstd::prelude::*;
use vstd::string::*;

verus! {

/// The bits of 89.99 degrees, the northernmost latitude of an area.
pub const NORTH_LIMIT: u64 = 0x4056_7F5C_28F5_C28F;

/// The bits of -89.99 degrees, the southernmost latitude of an area.
pub const SOUTH_LIMIT: u64 = 0xC056_7F5C_28F5_C28F;

/// The bits of 180 degrees.
pub const EAST_EDGE: u64 = 0x4066_8000_0000_0000;

/// The bits of -180 degrees.
pub const WEST_EDGE: u64 = 0xC066_8000_0000_0000;

/// The longitudes of points along a way, not turned back at the antimeridian:
/// `onward` tells where a longitude lies as seen from the one before.
pub open spec fn unrolled<S: Fn(Real, Real) -> Real>(lons: Seq<Real>, onward: S) -> Seq<Real>
    decreases lons.len(),
{
    if lons.len() <= 1 {
        lons
    } else {
        let before = unrolled(lons.drop_last(), onward);
        before.push(given::gives2(onward, before.last(), lons.last()))
    }
}

/// The first number below which none is.
pub open spec fn lowest(s: Seq<Real>) -> Real
    decreases s.len(),
{
    if s.len() <= 1 {
        s[0]
    } else if s.last().below(lowest(s.drop_last())) {
        s.last()
    } else {
        lowest(s.drop_last())
    }
}

/// The first number above which none is.
pub open spec fn highest(s: Seq<Real>) -> Real
    decreases s.len(),
{
    if s.len() <= 1 {
        s[0]
    } else if highest(s.drop_last()).below(s.last()) {
        s.last()
    } else {
        highest(s.drop_last())
    }
}

/// The lowest number is one of them, and none of them is below it.
pub proof fn law_lowest_is_lowest(s: Seq<Real>)
    requires
        s.len() > 0,
    ensures
        s.contains(lowest(s)),
        forall|k: int| 0 <= k < s.len() ==> !(#[trigger] s[k]).below(lowest(s)),
    decreases s.len(),
{
    if s.len() > 1 {
        let front = s.drop_last();
        law_lowest_is_lowest(front);
        let k = choose|k: int| 0 <= k < front.len() && front[k] == lowest(front);
        assert(s[k] == lowest(front));
        assert(s[s.len() - 1] == s.last());
        assert forall|k: int| 0 <= k < s.len() implies !(#[trigger] s[k]).below(lowest(s)) by {
            if k < s.len() - 1 {
                assert(front[k] == s[k]);
            }
        }
    } else {
        assert(s[0] == lowest(s));
    }
}

/// The highest number is one of them, and none of them is above it.
pub proof fn law_highest_is_highest(s: Seq<Real>)
    requires
        s.len() > 0,
    ensures
        s.contains(highest(s)),
        forall|k: int| 0 <= k < s.len() ==> !highest(s).below(#[trigger] s[k]),
    decreases s.len(),
{
    if s.len() > 1 {
        let front = s.drop_last();
        law_highest_is_highest(front);
        let k = choose|k: int| 0 <= k < front.len() && front[k] == highest(front);
        assert(s[k] == highest(front));
        assert(s[s.len() - 1] == s.last());
        assert forall|k: int| 0 <= k < s.len() implies !highest(s).below(#[trigger] s[k]) by {
            if k < s.len() - 1 {
                assert(front[k] == s[k]);
            }
        }
    } else {
        assert(s[0] == highest(s));
    }
}

proof fn lemma_unrolled<S: Fn(Real, Real) -> Real>(lons: Seq<Real>, onward: S)
    ensures
        unrolled(lons, onward).len() == lons.len(),
    decreases lons.len(),
{
    if lons.len() > 1 {
        lemma_unrolled(lons.drop_last(), onward);
    }
}

/// The longitudes of points.
pub open spec fn lons(points: Seq<(Real, Real)>) -> Seq<Real> {
    points.map_values(|p: (Real, Real)| p.0)
}

/// The latitudes of points.
pub open spec fn lats(points: Seq<(Real, Real)>) -> Seq<Real> {
    points.map_values(|p: (Real, Real)| p.1)
}

/// The extent of a way: its westernmost and easternmost longitude, not turned back
/// at the antimeridian, and its southernmost and northernmost latitude.
pub fn polyline_unwrapped_bbox<S: Fn(Real, Real) -> Real>(
    points: &Vec<(Real, Real)>,
    onward: &S,
) -> (extent: (Real, Real, Real, Real))
    requires
        points@.len() > 0,
        given::settled2(*onward),
    ensures
        extent.0 == lowest(unrolled(lons(points@), *onward)),
        extent.1 == highest(unrolled(lons(points@), *onward)),
        extent.2 == lowest(lats(points@)),
        extent.3 == highest(lats(points@)),
{
    let (first_lon, first_lat): (Real, Real) = points[0];
    let mut lon: Real = first_lon;
    let mut west: Real = first_lon;
    let mut east: Real = first_lon;
    let mut south: Real = first_lat;
    let mut north: Real = first_lat;
    let ghost all_lons = lons(points@);
    let ghost all_lats = lats(points@);
    let mut k: usize = 1;
    while k < points.len()
        invariant
            1 <= k <= points@.len(),
            given::settled2(*onward),
            all_lons == lons(points@),
            all_lats == lats(points@),
            lon == unrolled(all_lons.take(k as int), *onward).last(),
            west == lowest(unrolled(all_lons.take(k as int), *onward)),
            east == highest(unrolled(all_lons.take(k as int), *onward)),
            south == lowest(all_lats.take(k as int)),
            north == highest(all_lats.take(k as int)),
        decreases points@.len() - k,
    {
        let (next_lon, lat): (Real, Real) = points[k];
        proof {
            assert(all_lons.take(k + 1).drop_last() =~= all_lons.take(k as int));
            assert(all_lats.take(k + 1).drop_last() =~= all_lats.take(k as int));
            lemma_unrolled(all_lons.take(k as int), *onward);
            lemma_unrolled(all_lons.take(k + 1), *onward);
            let before = unrolled(all_lons.take(k as int), *onward);
            assert(unrolled(all_lons.take(k + 1), *onward).drop_last() =~= before);
        }
        lon = onward(lon, next_lon);
        if lon.lt(west) {
            west = lon;
        }
        if east.lt(lon) {
            east = lon;
        }
        if lat.lt(south) {
            south = lat;
        }
        if north.lt(lat) {
            north = lat;
        }
        k += 1;
    }
    proof {
        assert(all_lons.take(k as int) =~= all_lons);
        assert(all_lats.take(k as int) =~= all_lats);
    }
    (west, east, south, north)
}

/// An area from an extent with room on each side: kept off the poles, and round the
/// whole globe where it would overlap itself.
pub open spec fn area<G: Fn(Real, Real) -> bool, W: Fn(Real) -> Real>(
    lon: (Real, Real),
    lat: (Real, Real),
    round: G,
    wrap: W,
) -> LonLatBbox {
    let all = given::gives2(round, lon.0, lon.1);
    LonLatBbox {
        lon_min: if all {
            Real { bits: WEST_EDGE }
        } else {
            given::gives1(wrap, lon.0)
        },
        lon_max: if all {
            Real { bits: EAST_EDGE }
        } else {
            given::gives1(wrap, lon.1)
        },
        lat_min: lat.0.greater_of(Real { bits: SOUTH_LIMIT }),
        lat_max: lat.1.lesser_of(Real { bits: NORTH_LIMIT }),
    }
}

/// No area reaches a pole.
pub proof fn law_areas_stay_off_the_poles<G: Fn(Real, Real) -> bool, W: Fn(Real) -> Real>(
    lon: (Real, Real),
    lat: (Real, Real),
    round: G,
    wrap: W,
)
    ensures
        (Real { bits: SOUTH_LIMIT }).at_most(area(lon, lat, round, wrap).lat_min),
        area(lon, lat, round, wrap).lat_max.at_most(Real { bits: NORTH_LIMIT }),
{
}

/// The points of a way, where there is one.
pub open spec fn points_of(way: Option<Vec<(Real, Real)>>) -> Option<Seq<(Real, Real)>> {
    match way {
        Some(way) => Some(way@),
        None => None,
    }
}

/// Whether `sea_path` takes every two places and gives one way, or none, for them.
pub open spec fn finds_ways<P: Fn((Real, Real), (Real, Real)) -> Option<Vec<(Real, Real)>>>(
    sea_path: P,
) -> bool {
    &&& forall|a: (Real, Real), b: (Real, Real)| #[trigger] call_requires(sea_path, (a, b))
    &&& forall|
        a: (Real, Real),
        b: (Real, Real),
        r: Option<Vec<(Real, Real)>>,
        s: Option<Vec<(Real, Real)>>,
    | #[trigger]
        call_ensures(sea_path, (a, b), r) && #[trigger] call_ensures(sea_path, (a, b), s) ==> points_of(
            r,
        ) == points_of(s)
}

/// The way that the area is drawn round: by sea where there is one, else straight.
pub open spec fn guiding_way<
    P: Fn((Real, Real), (Real, Real)) -> Option<Vec<(Real, Real)>>,
>(origin: (Real, Real), destination: (Real, Real), sea_path: P) -> Seq<(Real, Real)> {
    match points_of(given::gives2(sea_path, origin, destination)) {
        Some(way) => way,
        None => seq![origin, destination],
    }
}

/// The search area of a route from `origin` to `destination`, each a longitude and a
/// latitude, within `clamp`. `None` where the ends are the same.
///
/// `sea_path` finds a way by sea, `onward` tells where a longitude lies as seen from
/// another, `padded` gives an extent room on each side, `round` tells whether
/// longitudes reach round the globe, and `wrap` brings one back between -180 and 180.
pub fn derive_route_bbox<
    P: Fn((Real, Real), (Real, Real)) -> Option<Vec<(Real, Real)>>,
    S: Fn(Real, Real) -> Real,
    D: Fn(Real, Real) -> (Real, Real),
    G: Fn(Real, Real) -> bool,
    W: Fn(Real) -> Real,
>(
    origin: (Real, Real),
    destination: (Real, Real),
    sea_path: &P,
    onward: &S,
    padded: &D,
    round: &G,
    wrap: &W,
    clamp: Option<MapBounds>,
) -> (b: Option<MapBounds>)
    requires
        finds_ways(*sea_path),
        given::settled2(*onward),
        given::settled2(*padded),
        given::settled2(*round),
        given::settled1(*wrap),
        guiding_way(origin, destination, *sea_path).len() > 0,
    ensures
        b is None <==> origin.0.equals(destination.0) && origin.1.equals(destination.1),
        b matches Some(m) ==> {
            let way = guiding_way(origin, destination, *sea_path);
            let turned = unrolled(lons(way), *onward);
            let lon = given::gives2(*padded, lowest(turned), highest(turned));
            let lat = given::gives2(*padded, lowest(lats(way)), highest(lats(way)));
            m == (MapBounds { bbox: area(lon, lat, *round, *wrap) }).clamped(edges(clamp))
        },
{
    if origin.0.eq_num(destination.0) && origin.1.eq_num(destination.1) {
        return None;
    }
    let way: Vec<(Real, Real)> = match sea_path(origin, destination) {
        Some(way) => way,
        None => {
            let mut way: Vec<(Real, Real)> = Vec::new();
            way.push(origin);
            way.push(destination);
            assert(way@ =~= seq![origin, destination]);
            way
        },
    };
    let (west, east, south, north) = polyline_unwrapped_bbox(&way, onward);
    let (west, east): (Real, Real) = padded(west, east);
    let (south, north): (Real, Real) = padded(south, north);
    let lat_min: Real = south.max(Real { bits: SOUTH_LIMIT });
    let lat_max: Real = north.min(Real { bits: NORTH_LIMIT });
    let bbox: LonLatBbox = if round(west, east) {
        LonLatBbox::new(Real { bits: WEST_EDGE }, Real { bits: EAST_EDGE }, lat_min, lat_max)
    } else {
        LonLatBbox::new(wrap(west), wrap(east), lat_min, lat_max)
    };
    let whole = MapBounds { bbox };
    Some(
        match clamp {
            Some(c) => whole.clamp_to(
                Some((c.bbox.lon_min, c.bbox.lon_max, c.bbox.lat_min, c.bbox.lat_max)),
            ),
            None => whole.clamp_to(None),
        },
    )
}

/// Whether padding never narrows an extent.
pub open spec fn widens<D: Fn(Real, Real) -> (Real, Real)>(padded: D) -> bool {
    forall|lo: Real, hi: Real|
        lo.at_most(hi) ==> {
            let (a, b) = #[trigger] given::gives2(padded, lo, hi);
            a.at_most(lo) && hi.at_most(b)
        }
}

/// Whether a longitude between two is, once all three are brought back between -180 and 180,
/// on the way east from the first to the second.
pub open spec fn keeps_between<W: Fn(Real) -> Real>(wrap: W, west: Real, east: Real) -> bool {
    forall|x: Real|
        west.at_most(x) && x.at_most(east) ==> {
            let (a, b, y) = (
                given::gives1(wrap, west),
                given::gives1(wrap, east),
                #[trigger] given::gives1(wrap, x),
            );
            if b.below(a) {
                a.at_most(y) || y.at_most(b)
            } else {
                a.at_most(y) && y.at_most(b)
            }
        }
}

/// The area of a way holds each of its points, and so both ends of a route: where padding
/// widens, no point is beyond the latitudes of areas, and longitudes keep their places when
/// they are brought back between -180 and 180.
pub proof fn law_area_holds_the_way<
    S: Fn(Real, Real) -> Real,
    D: Fn(Real, Real) -> (Real, Real),
    G: Fn(Real, Real) -> bool,
    W: Fn(Real) -> Real,
>(way: Seq<(Real, Real)>, onward: S, padded: D, round: G, wrap: W, k: int)
    requires
        0 <= k < way.len(),
        widens(padded),
        forall|m: int|
            0 <= m < way.len() ==> (Real { bits: SOUTH_LIMIT }).at_most((#[trigger] way[m]).1)
                && way[m].1.at_most(Real { bits: NORTH_LIMIT }),
        ({
            let turned = unrolled(lons(way), onward);
            let lon = given::gives2(padded, lowest(turned), highest(turned));
            &&& forall|m: int| 0 <= m < turned.len() ==> !(#[trigger] turned[m]).nan()
            &&& if given::gives2(round, lon.0, lon.1) {
                (Real { bits: WEST_EDGE }).at_most(way[k].0) && way[k].0.at_most(
                    Real { bits: EAST_EDGE },
                )
            } else {
                keeps_between(wrap, lon.0, lon.1) && given::gives1(wrap, turned[k]).equals(way[k].0)
            }
        }),
    ensures
        ({
            let turned = unrolled(lons(way), onward);
            let lon = given::gives2(padded, lowest(turned), highest(turned));
            let lat = given::gives2(padded, lowest(lats(way)), highest(lats(way)));
            area(lon, lat, round, wrap).holds(way[k].0, way[k].1)
        }),
{
    let turned = unrolled(lons(way), onward);
    lemma_unrolled(lons(way), onward);
    law_lowest_is_lowest(turned);
    law_highest_is_highest(turned);
    law_lowest_is_lowest(lats(way));
    law_highest_is_highest(lats(way));
    let lo = choose|m: int| 0 <= m < turned.len() && turned[m] == lowest(turned);
    let hi = choose|m: int| 0 <= m < turned.len() && turned[m] == highest(turned);
    assert(!turned[lo].nan() && !turned[hi].nan() && !turned[k].nan());
    assert(!turned[k].below(lowest(turned)));
    assert(!highest(turned).below(turned[k]));
    let south = choose|m: int| 0 <= m < way.len() && lats(way)[m] == lowest(lats(way));
    let north = choose|m: int| 0 <= m < way.len() && lats(way)[m] == highest(lats(way));
    assert(lats(way)[south] == way[south].1 && lats(way)[north] == way[north].1);
    assert(lats(way)[k] == way[k].1);
    assert(!lats(way)[k].below(lowest(lats(way))));
    assert(!highest(lats(way)).below(lats(way)[k]));
    let lat = given::gives2(padded, lowest(lats(way)), highest(lats(way)));
    let lon = given::gives2(padded, lowest(turned), highest(turned));
    assert(lon.0.at_most(turned[k]) && turned[k].at_most(lon.1));
}

/// The edges of bounds.
pub open spec fn edges(b: Option<MapBounds>) -> Option<(Real, Real, Real, Real)> {
    match b {
        Some(c) => Some((c.bbox.lon_min, c.bbox.lon_max, c.bbox.lat_min, c.bbox.lat_max)),
        None => None,
    }
}

/// Bounds in the form in which a user gives them: west, south, east, north. `show`
/// writes a number.
pub fn format_bbox_flag<S: Fn(Real) -> String>(bounds: MapBounds, show: &S) -> (s: String)
    requires
        given::worded1(*show),
    ensures
        s@ == given::words1(*show, bounds.bbox.lon_min) + ","@ + given::words1(
            *show,
            bounds.bbox.lat_min,
        ) + ","@ + given::words1(*show, bounds.bbox.lon_max) + ","@ + given::words1(
            *show,
            bounds.bbox.lat_max,
        ),
{
    let mut s: String = show(bounds.bbox.lon_min);
    s.append(",");
    s.append(show(bounds.bbox.lat_min).as_str());
    s.append(",");
    s.append(show(bounds.bbox.lon_max).as_str());
    s.append(",");
    s.append(show(bounds.bbox.lat_max).as_str());
    s
}

/// Longitudes are told one from the one before: the first stays, and each further one is
/// what comes of it onward from where the one before has come to.
pub proof fn law_longitudes_go_on_from_one_another<S: Fn(Real, Real) -> Real>(
    lons: Seq<Real>,
    onward: S,
    k: int,
)
    requires
        0 <= k < lons.len(),
    ensures
        unrolled(lons, onward).len() == lons.len(),
        unrolled(lons, onward)[0] == lons[0],
        k > 0 ==> unrolled(lons, onward)[k] == given::gives2(
            onward,
            unrolled(lons, onward)[k - 1],
            lons[k],
        ),
    decreases lons.len(),
{
    if lons.len() > 1 {
        let front = lons.drop_last();
        if k < lons.len() - 1 {
            law_longitudes_go_on_from_one_another(front, onward, k);
        } else {
            law_longitudes_go_on_from_one_another(front, onward, 0);
        }
    }
}

/// An area that goes round the globe is bounded by the antimeridian on both sides, every other
/// by its own sides brought back onto the globe. Latitudes are those asked for, but for
/// those nearer a pole than 89.99 degrees.
pub proof fn law_area_sides<G: Fn(Real, Real) -> bool, W: Fn(Real) -> Real>(
    lon: (Real, Real),
    lat: (Real, Real),
    round: G,
    wrap: W,
)
    requires
        !lat.0.nan() && !lat.1.nan(),
    ensures
        ({
            let b = area(lon, lat, round, wrap);
            let south = Real { bits: 0xC056_7F5C_28F5_C28F };
            let north = Real { bits: 0x4056_7F5C_28F5_C28F };
            &&& given::gives2(round, lon.0, lon.1) ==> b.lon_min.bits == 0xC066_8000_0000_0000
                && b.lon_max.bits == 0x4066_8000_0000_0000
            &&& !given::gives2(round, lon.0, lon.1) ==> b.lon_min == given::gives1(wrap, lon.0)
                && b.lon_max == given::gives1(wrap, lon.1)
            &&& south.at_most(lat.0) ==> b.lat_min == lat.0
            &&& lat.0.below(south) ==> b.lat_min == south
            &&& lat.1.at_most(north) ==> b.lat_max == lat.1
            &&& north.below(lat.1) ==> b.lat_max == north
        }),
{
}

/// A way found over sea guides the area; without one the straight line does.
pub proof fn law_way_guides_the_area<
    P: Fn((Real, Real), (Real, Real)) -> Option<Vec<(Real, Real)>>,
>(origin: (Real, Real), destination: (Real, Real), sea_path: P)
    ensures
        match given::gives2(sea_path, origin, destination) {
            Some(way) => guiding_way(origin, destination, sea_path) == way@,
            None => guiding_way(origin, destination, sea_path) == seq![origin, destination],
        },
{
}

/// An area cut to itself stays as it is.
pub proof fn law_cut_to_itself(b: MapBounds)
    requires
        b.bbox.lon_min.at_most(b.bbox.lon_max),
        b.bbox.lat_min.at_most(b.bbox.lat_max),
    ensures
        b.clamped(edges(Some(b))) == b,
        b.clamped(edges(None)) == b,
{
}

} // verus!
