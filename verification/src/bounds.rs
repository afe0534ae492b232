//! Rectangles of longitude and latitude, and the domain of a route search.
use crate::given;
use crate::number::{Real, Real32, INFINITY_64, SIGN_64};
use crate::wind_map::baked::BakeBounds;
use crate::wind_map::{TimedWindMap, WeatherRow};
use vstd::prelude::*;

verus! {

/// A rectangle in degrees. It crosses the antimeridian where `lon_min > lon_max`:
/// it then covers the longitudes from `lon_min` east to 180 and from -180 to `lon_max`.
#[derive(Clone, Copy, Debug, PartialEq, Eq, Structural)]
pub struct LonLatBbox {
    pub lon_min: Real,
    pub lon_max: Real,
    pub lat_min: Real,
    pub lat_max: Real,
}

impl LonLatBbox {
    /// Whether the rectangle crosses the antimeridian.
    pub open spec fn wraps(self) -> bool {
        self.lon_max.below(self.lon_min)
    }

    /// Whether the rectangle holds the point, its edges counted.
    pub open spec fn holds(self, lon: Real, lat: Real) -> bool {
        &&& !lat.below(self.lat_min)
        &&& !self.lat_max.below(lat)
        &&& if self.wraps() {
            self.lon_min.at_most(lon) || lon.at_most(self.lon_max)
        } else {
            self.lon_min.at_most(lon) && lon.at_most(self.lon_max)
        }
    }

    /// Whether the rectangle has an area.
    pub open spec fn has_area(self) -> bool {
        self.lat_min.below(self.lat_max) && !self.lon_min.equals(self.lon_max)
    }

    /// A rectangle from its edges.
    pub fn new(lon_min: Real, lon_max: Real, lat_min: Real, lat_max: Real) -> (b: LonLatBbox)
        ensures
            b == (LonLatBbox { lon_min, lon_max, lat_min, lat_max }),
    {
        LonLatBbox { lon_min, lon_max, lat_min, lat_max }
    }

    /// Whether the rectangle crosses the antimeridian.
    pub fn wraps_antimeridian(self) -> (r: bool)
        ensures
            r == self.wraps(),
    {
        self.lon_max.lt(self.lon_min)
    }

    /// Whether the rectangle has an area.
    pub fn is_non_degenerate(self) -> (r: bool)
        ensures
            r == self.has_area(),
    {
        self.lat_min.lt(self.lat_max) && !self.lon_min.eq_num(self.lon_max)
    }

    /// Whether the rectangle holds the point, its edges counted.
    pub fn contains(self, lon: Real, lat: Real) -> (r: bool)
        ensures
            r == self.holds(lon, lat),
    {
        if lat.lt(self.lat_min) || self.lat_max.lt(lat) {
            return false;
        }
        if self.wraps_antimeridian() {
            self.lon_min.le(lon) || lon.le(self.lon_max)
        } else {
            self.lon_min.le(lon) && lon.le(self.lon_max)
        }
    }
}

/// The smallest of the numbers in `s`, infinity where there is none. A NaN counts
/// as no number.
pub open spec fn least_of(s: Seq<Real>) -> Real
    decreases s.len(),
{
    if s.len() == 0 {
        Real { bits: INFINITY_64 }
    } else {
        least_of(s.drop_last()).lesser_of(s.last())
    }
}

/// The largest of the numbers in `s`, minus infinity where there is none. A NaN
/// counts as no number.
pub open spec fn greatest_of(s: Seq<Real>) -> Real
    decreases s.len(),
{
    if s.len() == 0 {
        Real { bits: (INFINITY_64 + SIGN_64) as u64 }
    } else {
        greatest_of(s.drop_last()).greater_of(s.last())
    }
}

/// The smallest number is at most each number, and one of them where one is finite.
pub proof fn law_least_of_is_least(s: Seq<Real>)
    ensures
        !least_of(s).nan(),
        forall|k: int| 0 <= k < s.len() && !(#[trigger] s[k]).nan() ==> least_of(s).at_most(s[k]),
        least_of(s).bits == INFINITY_64 || s.contains(least_of(s)),
    decreases s.len(),
{
    if s.len() > 0 {
        let front = s.drop_last();
        law_least_of_is_least(front);
        assert forall|k: int| 0 <= k < s.len() && !(#[trigger] s[k]).nan() implies least_of(
            s,
        ).at_most(s[k]) by {
            if k < s.len() - 1 {
                assert(front[k] == s[k]);
            }
        }
        if least_of(s) == s.last() {
            assert(s[s.len() - 1] == s.last());
        } else if front.contains(least_of(front)) {
            let k = choose|k: int| 0 <= k < front.len() && front[k] == least_of(front);
            assert(s[k] == least_of(s));
        }
    }
}

/// The largest number is at least each number, and one of them where one is finite.
pub proof fn law_greatest_of_is_greatest(s: Seq<Real>)
    ensures
        !greatest_of(s).nan(),
        forall|k: int| 0 <= k < s.len() && !(#[trigger] s[k]).nan() ==> s[k].at_most(greatest_of(s)),
        greatest_of(s).bits == INFINITY_64 + SIGN_64 || s.contains(greatest_of(s)),
    decreases s.len(),
{
    if s.len() > 0 {
        let front = s.drop_last();
        law_greatest_of_is_greatest(front);
        assert forall|k: int| 0 <= k < s.len() && !(#[trigger] s[k]).nan() implies s[k].at_most(
            greatest_of(s),
        ) by {
            if k < s.len() - 1 {
                assert(front[k] == s[k]);
            }
        }
        if greatest_of(s) == s.last() {
            assert(s[s.len() - 1] == s.last());
        } else if front.contains(greatest_of(front)) {
            let k = choose|k: int| 0 <= k < front.len() && front[k] == greatest_of(front);
            assert(s[k] == greatest_of(s));
        }
    }
}

/// The bits of 1.
pub const ONE: u64 = 0x3FF0_0000_0000_0000;

/// The longitudes of rows.
pub open spec fn lons_of<W: Fn(Real32) -> Real>(rows: Seq<WeatherRow>, widen: W) -> Seq<Real> {
    rows.map_values(|r: WeatherRow| given::gives1(widen, r.lon))
}

/// The latitudes of rows.
pub open spec fn lats_of<W: Fn(Real32) -> Real>(rows: Seq<WeatherRow>, widen: W) -> Seq<Real> {
    rows.map_values(|r: WeatherRow| given::gives1(widen, r.lat))
}

/// The extent of a wind map's samples, or a part of it.
#[derive(Clone, Copy, Debug, PartialEq, Eq, Structural)]
pub struct MapBounds {
    pub bbox: LonLatBbox,
}

impl MapBounds {
    /// What is left of the bounds within the rectangle `(lon_min, lon_max, lat_min,
    /// lat_max)`. Where either crosses the antimeridian, the longitudes of the
    /// rectangle stand as they are. Where they have no longitude in common, nothing is
    /// left: a rectangle without an extent.
    pub open spec fn clamped(self, sub: Option<(Real, Real, Real, Real)>) -> MapBounds {
        match sub {
            None => self,
            Some((lon_min, lon_max, lat_min, lat_max)) => {
                let through = lon_max.below(lon_min) || self.bbox.wraps();
                let west = self.bbox.lon_min.greater_of(lon_min);
                let east = self.bbox.lon_max.lesser_of(lon_max);
                MapBounds {
                    bbox: LonLatBbox {
                        lon_min: if through {
                            lon_min
                        } else {
                            west
                        },
                        lon_max: if through {
                            lon_max
                        } else if east.below(west) {
                            west
                        } else {
                            east
                        },
                        lat_min: self.bbox.lat_min.greater_of(lat_min),
                        lat_max: self.bbox.lat_max.lesser_of(lat_max),
                    },
                }
            },
        }
    }

    /// Whether the bounds cross the antimeridian.
    pub fn lon_wraps(self) -> (r: bool)
        ensures
            r == self.bbox.wraps(),
    {
        self.bbox.wraps_antimeridian()
    }

    /// The extent of the given positions, or `None` where there are none.
    pub fn from_positions(positions: &[(Real, Real)]) -> (b: Option<MapBounds>)
        ensures
            b is None <==> positions@.len() == 0,
            b matches Some(m) ==> m.bbox == (LonLatBbox {
                lon_min: least_of(positions@.map_values(|p: (Real, Real)| p.0)),
                lon_max: greatest_of(positions@.map_values(|p: (Real, Real)| p.0)),
                lat_min: least_of(positions@.map_values(|p: (Real, Real)| p.1)),
                lat_max: greatest_of(positions@.map_values(|p: (Real, Real)| p.1)),
            }),
    {
        if positions.len() == 0 {
            return None;
        }
        let ghost lons = positions@.map_values(|p: (Real, Real)| p.0);
        let ghost lats = positions@.map_values(|p: (Real, Real)| p.1);
        let mut bbox: LonLatBbox = LonLatBbox {
            lon_min: Real { bits: INFINITY_64 },
            lon_max: Real { bits: INFINITY_64 + SIGN_64 },
            lat_min: Real { bits: INFINITY_64 },
            lat_max: Real { bits: INFINITY_64 + SIGN_64 },
        };
        let mut k: usize = 0;
        assert(lons.take(0) =~= Seq::<Real>::empty());
        assert(lats.take(0) =~= Seq::<Real>::empty());
        while k < positions.len()
            invariant
                k <= positions@.len(),
                lons == positions@.map_values(|p: (Real, Real)| p.0),
                lats == positions@.map_values(|p: (Real, Real)| p.1),
                bbox.lon_min == least_of(lons.take(k as int)),
                bbox.lon_max == greatest_of(lons.take(k as int)),
                bbox.lat_min == least_of(lats.take(k as int)),
                bbox.lat_max == greatest_of(lats.take(k as int)),
            decreases positions@.len() - k,
        {
            let (lon, lat) = positions[k];
            proof {
                assert(lons.take(k + 1).drop_last() =~= lons.take(k as int));
                assert(lats.take(k + 1).drop_last() =~= lats.take(k as int));
                assert(lons.take(k + 1).last() == lon);
                assert(lats.take(k + 1).last() == lat);
            }
            bbox = LonLatBbox {
                lon_min: bbox.lon_min.min(lon),
                lon_max: bbox.lon_max.max(lon),
                lat_min: bbox.lat_min.min(lat),
                lat_max: bbox.lat_max.max(lat),
            };
            k += 1;
        }
        proof {
            assert(lons.take(k as int) =~= lons);
            assert(lats.take(k as int) =~= lats);
        }
        Some(MapBounds { bbox })
    }

    /// The extent of the first field of a wind map, or `None` where it has no rows.
    /// `widen` tells a number in double precision.
    pub fn from_wind_map<W: Fn(Real32) -> Real>(map: &TimedWindMap, widen: &W) -> (b: Option<
        MapBounds,
    >)
        requires
            given::settled1(*widen),
        ensures
            b is None <==> map.frames@.len() == 0 || map.frames@[0].rows@.len() == 0,
            b matches Some(m) ==> m.bbox == (LonLatBbox {
                lon_min: least_of(lons_of(map.frames@[0].rows@, *widen)),
                lon_max: greatest_of(lons_of(map.frames@[0].rows@, *widen)),
                lat_min: least_of(lats_of(map.frames@[0].rows@, *widen)),
                lat_max: greatest_of(lats_of(map.frames@[0].rows@, *widen)),
            }),
    {
        let rows: &Vec<WeatherRow> = match map.frame(0) {
            Some(frame) => frame.rows(),
            None => {
                return None;
            },
        };
        let mut positions: Vec<(Real, Real)> = Vec::new();
        let mut k: usize = 0;
        while k < rows.len()
            invariant
                k <= rows@.len(),
                given::settled1(*widen),
                positions@.len() == k,
                forall|i: int|
                    0 <= i < k ==> (#[trigger] positions@[i]).0 == given::gives1(
                        *widen,
                        rows@[i].lon,
                    ) && positions@[i].1 == given::gives1(*widen, rows@[i].lat),
            decreases rows@.len() - k,
        {
            positions.push((widen(rows[k].lon), widen(rows[k].lat)));
            k += 1;
        }
        proof {
            assert(positions@.map_values(|p: (Real, Real)| p.0) =~= lons_of(rows@, *widen));
            assert(positions@.map_values(|p: (Real, Real)| p.1) =~= lats_of(rows@, *widen));
        }
        MapBounds::from_positions(positions.as_slice())
    }

    /// How finely the bounds are resampled: as asked, but with no more than 1024
    /// cells along a side. `extents` tells how wide and how high a rectangle is, and
    /// `share` the 1024th part of a number.
    pub fn to_bake_bounds<E: Fn(LonLatBbox) -> (Real, Real), D: Fn(Real) -> Real>(
        self,
        step: Real,
        extents: &E,
        share: &D,
    ) -> (b: BakeBounds)
        requires
            given::settled1(*extents),
            given::settled1(*share),
        ensures
            b.bbox == self.bbox,
            b.coord_scale == (Real { bits: ONE }),
            ({
                let (width, height) = given::gives1(*extents, self.bbox);
                b.step == step.greater_of(given::gives1(*share, width.greater_of(height)))
            }),
    {
        let (width, height): (Real, Real) = extents(self.bbox);
        let least: Real = share(width.max(height));
        BakeBounds { bbox: self.bbox, step: step.max(least), coord_scale: Real { bits: ONE } }
    }

    /// The ends of a search: those set, else the south-west and north-east corners.
    pub fn resolve_endpoints(self, start: Option<(Real, Real)>, end: Option<(Real, Real)>) -> (ends: (
        (Real, Real),
        (Real, Real),
    ))
        ensures
            ends.0 == (match start {
                Some(p) => p,
                None => (self.bbox.lon_min, self.bbox.lat_min),
            }),
            ends.1 == (match end {
                Some(p) => p,
                None => (self.bbox.lon_max, self.bbox.lat_max),
            }),
    {
        let from: (Real, Real) = match start {
            Some(p) => p,
            None => (self.bbox.lon_min, self.bbox.lat_min),
        };
        let to: (Real, Real) = match end {
            Some(p) => p,
            None => (self.bbox.lon_max, self.bbox.lat_max),
        };
        (from, to)
    }

    /// What is left of the bounds within the rectangle `(lon_min, lon_max, lat_min,
    /// lat_max)`.
    pub fn clamp_to(self, sub: Option<(Real, Real, Real, Real)>) -> (b: MapBounds)
        ensures
            b == self.clamped(sub),
    {
        match sub {
            None => self,
            Some((lon_min, lon_max, lat_min, lat_max)) => {
                let south: Real = self.bbox.lat_min.max(lat_min);
                let north: Real = self.bbox.lat_max.min(lat_max);
                if lon_max.lt(lon_min) || self.bbox.wraps_antimeridian() {
                    MapBounds { bbox: LonLatBbox::new(lon_min, lon_max, south, north) }
                } else {
                    let west: Real = self.bbox.lon_min.max(lon_min);
                    let shared: Real = self.bbox.lon_max.min(lon_max);
                    let east: Real = if shared.lt(west) {
                        west
                    } else {
                        shared
                    };
                    MapBounds { bbox: LonLatBbox::new(west, east, south, north) }
                }
            },
        }
    }

    /// Whether the bounds have an area.
    pub fn is_non_degenerate(self) -> (r: bool)
        ensures
            r == self.bbox.has_area(),
    {
        self.bbox.is_non_degenerate()
    }
}

/// Clamping two rectangles that do not cross the antimeridian leaves just the points
/// that both hold. Where they have no longitude in common, no point is in both and what
/// is left has no area.
pub proof fn law_clamp_is_intersection(
    b: MapBounds,
    sub: (Real, Real, Real, Real),
    lon: Real,
    lat: Real,
)
    requires
        !b.bbox.wraps(),
        !sub.1.below(sub.0),
        !b.bbox.lon_min.nan() && !b.bbox.lon_max.nan() && !b.bbox.lat_min.nan() && !b.bbox.lat_max.nan(),
        !sub.0.nan() && !sub.1.nan() && !sub.2.nan() && !sub.3.nan(),
        !lat.nan(),
    ensures
        ({
            let left = b.clamped(Some(sub)).bbox;
            let other = LonLatBbox { lon_min: sub.0, lon_max: sub.1, lat_min: sub.2, lat_max: sub.3 };
            let both = b.bbox.holds(lon, lat) && other.holds(lon, lat);
            if b.bbox.lon_max.below(sub.0) || sub.1.below(b.bbox.lon_min) {
                !both && !left.has_area()
            } else {
                left.holds(lon, lat) <==> both
            }
        }),
{
}

/// Clamping to a rectangle that lies outside the bounds leaves no area.
pub proof fn law_clamp_outside_has_no_area(b: MapBounds, sub: (Real, Real, Real, Real))
    requires
        !b.bbox.wraps(),
        !sub.1.below(sub.0),
        !b.bbox.lon_min.nan() && !b.bbox.lon_max.nan() && !b.bbox.lat_min.nan() && !b.bbox.lat_max.nan(),
        !sub.0.nan() && !sub.1.nan() && !sub.2.nan() && !sub.3.nan(),
        b.bbox.lon_max.at_most(sub.0) || sub.1.at_most(b.bbox.lon_min) || b.bbox.lat_max.at_most(sub.2)
            || sub.3.at_most(b.bbox.lat_min),
    ensures
        !b.clamped(Some(sub)).bbox.has_area(),
{
}

/// An area and the one with its west and east sides exchanged hold together every longitude,
/// and both hold none but those of the two sides.
pub proof fn law_area_and_its_other_side(b: LonLatBbox, lon: Real, lat: Real)
    requires
        !b.lon_min.nan() && !b.lon_max.nan() && !lon.nan(),
        !b.lon_min.equals(b.lon_max),
        b.lat_min.at_most(lat) && lat.at_most(b.lat_max),
    ensures
        ({
            let other = LonLatBbox {
                lon_min: b.lon_max,
                lon_max: b.lon_min,
                lat_min: b.lat_min,
                lat_max: b.lat_max,
            };
            &&& b.holds(lon, lat) || other.holds(lon, lat)
            &&& b.holds(lon, lat) && other.holds(lon, lat) <==> lon.equals(b.lon_min) || lon.equals(
                b.lon_max,
            )
        }),
{
}

/// An area whose west side is no further east than its east side holds what lies between
/// its sides, the sides among it. No area holds what is south or north of it.
pub proof fn law_area_holds_what_lies_between(b: LonLatBbox, lon: Real, lat: Real)
    requires
        !b.lat_min.nan() && !b.lat_max.nan() && !lat.nan(),
    ensures
        b.lon_min.at_most(b.lon_max) ==> (b.holds(lon, lat) <==> b.lon_min.at_most(lon)
            && lon.at_most(b.lon_max) && b.lat_min.at_most(lat) && lat.at_most(b.lat_max)),
        lat.below(b.lat_min) || b.lat_max.below(lat) ==> !b.holds(lon, lat),
        lon.nan() ==> !b.holds(lon, lat),
{
}

/// An area has no extent just if its sides meet: its south side is not below its north side, or
/// its west and east sides are one.
pub proof fn law_area_without_extent(b: LonLatBbox)
    requires
        !b.lon_min.nan() && !b.lon_max.nan() && !b.lat_min.nan() && !b.lat_max.nan(),
    ensures
        !b.has_area() <==> b.lat_max.at_most(b.lat_min) || b.lon_min.equals(b.lon_max),
{
}

/// Where either area reaches across the antimeridian, the sides are those asked for; latitudes
/// are cut all the same. Without an area to cut to, nothing changes.
pub proof fn law_clamp_across_the_antimeridian(b: MapBounds, sub: (Real, Real, Real, Real))
    requires
        sub.1.below(sub.0) || b.bbox.lon_max.below(b.bbox.lon_min),
        !b.bbox.lat_min.nan() && !b.bbox.lat_max.nan() && !sub.2.nan() && !sub.3.nan(),
    ensures
        ({
            let left = b.clamped(Some(sub)).bbox;
            &&& left.lon_min == sub.0
            &&& left.lon_max == sub.1
            &&& b.bbox.lat_min.at_most(left.lat_min) && sub.2.at_most(left.lat_min)
            &&& left.lat_min == b.bbox.lat_min || left.lat_min == sub.2
            &&& left.lat_max.at_most(b.bbox.lat_max) && left.lat_max.at_most(sub.3)
            &&& left.lat_max == b.bbox.lat_max || left.lat_max == sub.3
        }),
        b.clamped(None) == b,
{
}

/// Longitudes and latitudes of rows, in order.
pub proof fn law_places_of_rows<W: Fn(Real32) -> Real>(rows: Seq<WeatherRow>, widen: W, k: int)
    requires
        0 <= k < rows.len(),
    ensures
        lons_of(rows, widen).len() == rows.len(),
        lats_of(rows, widen).len() == rows.len(),
        lons_of(rows, widen)[k] == given::gives1(widen, rows[k].lon),
        lats_of(rows, widen)[k] == given::gives1(widen, rows[k].lat),
{
}

} // verus!
