//! Surface wind out of GRIB2 files: which messages count, when they hold, and how
//! their values become frames.
pub mod frames;
pub mod grib_wrap;
pub mod load;
pub mod packing;
pub mod sections;
pub mod whole;

use crate::axes;
use crate::calendar;
use crate::given;
use crate::number::{Real, Real32};
use crate::wind_map;
use crate::wind_map::{TimedWindMap, WeatherRow, WindMap, WindSample};
use std::collections::HashSet;
use vstd::prelude::*;
use vstd::relations::*;
use vstd::string::*;

verus! {

broadcast use vstd::std_specs::hash::group_hash_axioms;

/// Meteorological products.
pub const DISCIPLINE_METEOROLOGICAL: u8 = 0;

/// The category of wind among the meteorological products.
pub const PARAM_CATEGORY_MOMENTUM: u8 = 2;

/// The eastward wind.
pub const PARAM_NUMBER_UGRD: u8 = 2;

/// The northward wind.
pub const PARAM_NUMBER_VGRD: u8 = 3;

/// A level at a height above ground.
pub const SURFACE_HEIGHT_ABOVE_GROUND: u8 = 103;

/// The bits of 9.5, the lowest height in metres that counts as ten.
pub const LOWEST_HEIGHT_BITS: u64 = 0x4023_0000_0000_0000;

/// The bits of 10.5, the greatest height in metres that counts as ten.
pub const GREATEST_HEIGHT_BITS: u64 = 0x4025_0000_0000_0000;

/// The units in which a message tells its lead time.
#[derive(Clone, Copy, Debug, PartialEq, Eq, Structural)]
pub enum TimeUnit {
    Minute,
    Hour,
    Day,
    Month,
    Year,
    Decade,
    Normal,
    Century,
    ThreeHours,
    SixHours,
    TwelveHours,
    Second,
    Missing,
    /// A code that the table does not name.
    Unnamed(u8),
}

impl TimeUnit {
    /// Seconds of the unit, where it has a fixed length.
    pub open spec fn seconds(self) -> Option<int> {
        match self {
            TimeUnit::Second => Some(1),
            TimeUnit::Minute => Some(60),
            TimeUnit::Hour => Some(3600),
            TimeUnit::ThreeHours => Some(10_800),
            TimeUnit::SixHours => Some(21_600),
            TimeUnit::TwelveHours => Some(43_200),
            TimeUnit::Day => Some(86_400),
            _ => None,
        }
    }
}

/// Seconds of a lead time; `None` where the unit has no fixed length or the
/// seconds do not fit.
pub open spec fn lead_seconds(unit: TimeUnit, value: u32) -> Option<int> {
    match unit.seconds() {
        Some(s) if s * value <= u32::MAX => Some(s * value),
        _ => None,
    }
}

/// Seconds of a lead time of `value` units. `None` for units without a fixed
/// length, and where the seconds do not fit.
pub fn forecast_unit_to_seconds(unit: &TimeUnit, value: u32) -> (s: Option<u32>)
    ensures
        match lead_seconds(*unit, value) {
            Some(v) => s == Some(v as u32) && 0 <= v <= u32::MAX,
            None => s is None,
        },
{
    let multiplier: u32 = match *unit {
        TimeUnit::Second => 1,
        TimeUnit::Minute => 60,
        TimeUnit::Hour => 3600,
        TimeUnit::ThreeHours => 3 * 3600,
        TimeUnit::SixHours => 6 * 3600,
        TimeUnit::TwelveHours => 12 * 3600,
        TimeUnit::Day => 86_400,
        _ => {
            return None;
        },
    };
    assert(multiplier * value == value * multiplier) by (nonlinear_arith);
    value.checked_mul(multiplier)
}

/// The days from the first of 1970 to a day of the Gregorian calendar, before
/// and after its introduction alike. `None` for a month outside 1 to 12 or a day
/// outside 1 to 31. A day past the end of its month counts on into the next.
pub fn days_from_civil(y: i32, m: u8, d: u8) -> (days: Option<i64>)
    requires
        1 <= m <= 12 && 1 <= d <= 31 ==> y >= i32::MIN + 400,
    ensures
        days is Some <==> 1 <= m <= 12 && 1 <= d <= 31,
        days matches Some(n) ==> n == calendar::civil_days(y as int, m as int, d as int),
        days matches Some(n) ==> -1_000_000_000_000 < n < 1_000_000_000_000,
{
    if m < 1 || m > 12 || d < 1 || d > 31 {
        return None;
    }
    let y: i64 = if m <= 2 {
        y as i64 - 1
    } else {
        y as i64
    };
    let era: i64 = ((y + 2_400_000_000) as u64 / 400) as i64 - 6_000_000;
    let yoe: i64 = y - era * 400;
    let m: i64 = m as i64;
    let d: i64 = d as i64;
    let doy: i64 = (153 * (if m > 2 {
        m - 3
    } else {
        m + 9
    }) + 2) / 5 + d - 1;
    let doe: i64 = yoe * 365 + yoe / 4 - yoe / 100 + doy;
    proof {
        calendar::lemma_days_before_month(y as int);
        calendar::lemma_days_before_month(y + 1);
        calendar::lemma_year_length(y as int);
        assert(0 <= yoe < 400);
        assert(y as int / 4 == 100 * era + yoe as int / 4);
        assert(y as int / 100 == 4 * era + yoe as int / 100);
        assert(y as int / 400 == era);
    }
    Some(era * 146_097 + doe - 719_468)
}

/// When a message's model run began.
#[derive(Clone, Copy, Debug, PartialEq, Eq, Structural)]
pub struct RefTime {
    pub year: u16,
    pub month: u8,
    pub day: u8,
    pub hour: u8,
    pub minute: u8,
    pub second: u8,
}

impl RefTime {
    /// Whether every field lies in its range. A day may lie past the end of its
    /// month, and a second may be a leap second.
    pub open spec fn told(self) -> bool {
        &&& 1 <= self.month <= 12
        &&& 1 <= self.day <= 31
        &&& self.hour <= 23
        &&& self.minute <= 59
        &&& self.second <= 60
    }

    /// The seconds from the first of 1970 on.
    pub open spec fn unix_seconds(self) -> int {
        calendar::civil_days(self.year as int, self.month as int, self.day as int) * 86_400 + self.hour
            * 3600 + self.minute * 60 + self.second
    }
}

/// The seconds from the first of 1970 to a reference time, or `None` where one of
/// its fields is out of range.
pub fn ref_time_to_unix_seconds(rt: &RefTime) -> (s: Option<i64>)
    ensures
        s is Some <==> rt.told(),
        s matches Some(v) ==> v == rt.unix_seconds(),
        s matches Some(v) ==> -100_000_000_000_000_000 < v < 100_000_000_000_000_000,
{
    let days: i64 = match days_from_civil(rt.year as i32, rt.month, rt.day) {
        Some(days) => days,
        None => {
            return None;
        },
    };
    if rt.hour > 23 || rt.minute > 59 || rt.second > 60 {
        return None;
    }
    Some(days * 86_400 + rt.hour as i64 * 3600 + rt.minute as i64 * 60 + rt.second as i64)
}

/// What the head of a message tells.
#[derive(Clone, Copy, Debug)]
pub struct Submessage {
    pub discipline: u8,
    pub category: Option<u8>,
    pub number: Option<u8>,
    /// The kind of the first surface, and its value.
    pub surface: Option<(u8, Real)>,
    pub forecast: Option<(TimeUnit, u32)>,
    pub ref_time: RefTime,
}

/// Whether a height is not known to be further than half a metre from ten.
pub open spec fn near_ten(h: Real) -> bool {
    !h.below(Real { bits: LOWEST_HEIGHT_BITS }) && !(Real { bits: GREATEST_HEIGHT_BITS }).below(h)
}

impl Submessage {
    /// Whether the message holds a component of the wind at ten metres.
    pub open spec fn surface_wind(self) -> bool {
        &&& self.discipline == DISCIPLINE_METEOROLOGICAL
        &&& self.category == Some(PARAM_CATEGORY_MOMENTUM)
        &&& (self.number == Some(PARAM_NUMBER_UGRD) || self.number == Some(PARAM_NUMBER_VGRD))
        &&& self.surface matches Some((kind, h)) && kind == SURFACE_HEIGHT_ABOVE_GROUND && near_ten(h)
    }

    /// Whether the message tells when its values hold.
    pub open spec fn timed(self) -> bool {
        &&& self.forecast matches Some((unit, value)) && lead_seconds(unit, value) is Some
        &&& self.ref_time.told()
    }

    /// When the values hold, in seconds from the first of 1970 on.
    pub open spec fn valid_at(self) -> int {
        self.ref_time.unix_seconds() + lead_seconds(
            self.forecast->Some_0.0,
            self.forecast->Some_0.1,
        )->Some_0
    }
}

/// The time that a component of the wind at ten metres holds for, and whether it
/// is the eastward one. `None` for any other message, and for one that does not
/// tell its time.
pub fn classify(sub: &Submessage) -> (c: Option<(i64, bool)>)
    ensures
        c is Some <==> sub.surface_wind() && sub.timed(),
        c matches Some((t, is_u)) ==> t == sub.valid_at() && is_u == (sub.number == Some(
            PARAM_NUMBER_UGRD,
        )),
        c matches Some((t, is_u)) ==> -200_000_000_000_000_000 < t < 200_000_000_000_000_000,
{
    if sub.discipline != DISCIPLINE_METEOROLOGICAL {
        return None;
    }
    let (category, number): (u8, u8) = match (sub.category, sub.number) {
        (Some(category), Some(number)) => (category, number),
        _ => {
            return None;
        },
    };
    if category != PARAM_CATEGORY_MOMENTUM {
        return None;
    }
    let is_u: bool = number == PARAM_NUMBER_UGRD;
    if !is_u && number != PARAM_NUMBER_VGRD {
        return None;
    }
    match sub.surface {
        None => {
            return None;
        },
        Some((kind, h)) => {
            if kind != SURFACE_HEIGHT_ABOVE_GROUND {
                return None;
            }
            if h.lt(Real { bits: LOWEST_HEIGHT_BITS }) || (Real { bits: GREATEST_HEIGHT_BITS }).lt(h) {
                return None;
            }
        },
    }
    let lead: u32 = match sub.forecast {
        None => {
            return None;
        },
        Some((unit, value)) => match forecast_unit_to_seconds(&unit, value) {
            None => {
                return None;
            },
            Some(lead) => lead,
        },
    };
    match ref_time_to_unix_seconds(&sub.ref_time) {
        None => None,
        Some(begun) => Some((begun + lead as i64, is_u)),
    }
}

/// A rectangle of latitudes and longitudes in degrees, edges included.
#[derive(Clone, Copy, Debug)]
pub struct Grib2Bbox {
    pub lat_min: Real32,
    pub lat_max: Real32,
    pub lon_min: Real32,
    pub lon_max: Real32,
}

impl Grib2Bbox {
    /// Whether a point lies in the rectangle.
    pub open spec fn holds(self, lat: Real32, lon: Real32) -> bool {
        &&& self.lat_min.at_most(lat)
        &&& lat.at_most(self.lat_max)
        &&& self.lon_min.at_most(lon)
        &&& lon.at_most(self.lon_max)
    }

    /// Whether a point lies in the rectangle.
    pub fn contains(self, lat: Real32, lon: Real32) -> (r: bool)
        ensures
            r == self.holds(lat, lon),
    {
        self.lat_min.le(lat) && lat.le(self.lat_max) && self.lon_min.le(lon) && lon.le(self.lon_max)
    }
}

/// Whether a point, latitude first, is wanted. Without a rectangle every point is.
pub open spec fn wanted(bbox: Option<Grib2Bbox>, p: (Real32, Real32)) -> bool {
    bbox matches Some(b) ==> b.holds(p.0, p.1)
}

/// Whether a point, latitude first, is wanted.
pub(crate) fn is_wanted(bbox: Option<Grib2Bbox>, p: (Real32, Real32)) -> (r: bool)
    ensures
        r == wanted(bbox, p),
{
    match bbox {
        Some(b) => b.contains(p.0, p.1),
        None => true,
    }
}

/// The wanted points, in their order.
pub open spec fn wanted_points(
    latlons: Seq<(Real32, Real32)>,
    bbox: Option<Grib2Bbox>,
) -> Seq<(Real32, Real32)>
    decreases latlons.len(),
{
    if latlons.len() == 0 {
        Seq::empty()
    } else {
        let rest = wanted_points(latlons.drop_last(), bbox);
        if wanted(bbox, latlons.last()) {
            rest.push(latlons.last())
        } else {
            rest
        }
    }
}

/// The latitudes of points.
pub open spec fn lats(points: Seq<(Real32, Real32)>) -> Seq<Real32> {
    Seq::new(points.len(), |k: int| points[k].0)
}

/// The longitudes of points.
pub open spec fn lons(points: Seq<(Real32, Real32)>) -> Seq<Real32> {
    Seq::new(points.len(), |k: int| points[k].1)
}

/// Whether no coordinate of a wanted point is NaN.
pub open spec fn placed(latlons: Seq<(Real32, Real32)>, bbox: Option<Grib2Bbox>) -> bool {
    forall|k: int|
        0 <= k < latlons.len() && wanted(bbox, #[trigger] latlons[k]) ==> !latlons[k].0.nan()
            && !latlons[k].1.nan()
}

/// The patterns of every `stride`-th distinct latitude and of every `stride`-th
/// distinct longitude of the wanted points, counted from the least on.
pub fn compute_kept_axes(latlons: &Vec<(Real32, Real32)>, stride: usize, bbox: Option<Grib2Bbox>) -> (kept: (
    HashSet<u32>,
    HashSet<u32>,
))
    requires
        stride > 0,
        placed(latlons@, bbox),
    ensures
        kept.0@ == axes::every(
            axes::axis_of(lats(wanted_points(latlons@, bbox))),
            stride as int,
        ),
        kept.1@ == axes::every(
            axes::axis_of(lons(wanted_points(latlons@, bbox))),
            stride as int,
        ),
{
    let mut all_lats: Vec<Real32> = Vec::new();
    let mut all_lons: Vec<Real32> = Vec::new();
    let mut k: usize = 0;
    assert(wanted_points(latlons@.take(0), bbox) =~= Seq::empty());
    assert(all_lats@ =~= lats(wanted_points(latlons@.take(0), bbox)));
    assert(all_lons@ =~= lons(wanted_points(latlons@.take(0), bbox)));
    while k < latlons.len()
        invariant
            k <= latlons@.len(),
            placed(latlons@, bbox),
            all_lats@ == lats(wanted_points(latlons@.take(k as int), bbox)),
            all_lons@ == lons(wanted_points(latlons@.take(k as int), bbox)),
            axes::all_numbers(all_lats@),
            axes::all_numbers(all_lons@),
        decreases latlons@.len() - k,
    {
        let p: (Real32, Real32) = latlons[k];
        let ghost before = wanted_points(latlons@.take(k as int), bbox);
        proof {
            let more = latlons@.take(k + 1);
            assert(more.drop_last() =~= latlons@.take(k as int));
            assert(more.last() == p);
            assert(lats(before.push(p)) =~= lats(before).push(p.0));
            assert(lons(before.push(p)) =~= lons(before).push(p.1));
            assert(wanted(bbox, latlons@[k as int]) == wanted(bbox, p));
        }
        if is_wanted(bbox, p) {
            all_lats.push(p.0);
            all_lons.push(p.1);
        }
        k += 1;
    }
    assert(latlons@.take(k as int) =~= latlons@);
    let lat_axis: Vec<Real32> = axes::distinct(&all_lats);
    let lon_axis: Vec<Real32> = axes::distinct(&all_lons);
    (axes::pick_every(&lat_axis, stride), axes::pick_every(&lon_axis, stride))
}

/// The grid that all messages of a file share.
pub struct GridCache {
    /// The points, latitude first.
    pub latlons: Vec<(Real32, Real32)>,
    /// The latitudes and longitudes that are kept, where not all are.
    pub kept_axes: Option<(HashSet<u32>, HashSet<u32>)>,
}

impl GridCache {
    /// Whether a point is to be used.
    pub open spec fn keeps(&self, bbox: Option<Grib2Bbox>, p: (Real32, Real32)) -> bool {
        &&& wanted(bbox, p)
        &&& self.kept_axes matches Some((kept_lats, kept_lons)) ==> kept_lats@.contains(p.0.bits)
            && kept_lons@.contains(p.1.bits)
    }

    /// The grid of a file whose points are thinned by `stride`. A stride of 0 or 1
    /// keeps all.
    pub fn new(latlons: Vec<(Real32, Real32)>, stride: usize, bbox: Option<Grib2Bbox>) -> (cache:
        GridCache)
        requires
            stride > 1 ==> placed(latlons@, bbox),
        ensures
            cache.latlons == latlons,
            cache.kept_axes is Some <==> stride > 1,
            cache.kept_axes matches Some((kept_lats, kept_lons)) ==> {
                let points = wanted_points(latlons@, bbox);
                &&& kept_lats@ == axes::every(axes::axis_of(lats(points)), stride as int)
                &&& kept_lons@ == axes::every(axes::axis_of(lons(points)), stride as int)
            },
    {
        let kept_axes: Option<(HashSet<u32>, HashSet<u32>)> = if stride > 1 {
            Some(compute_kept_axes(&latlons, stride, bbox))
        } else {
            None
        };
        GridCache { latlons, kept_axes }
    }
}

/// The wind at a point: how fast the air moves east and north.
#[derive(Clone, Copy, Debug, PartialEq, Eq, Structural)]
pub struct WindRow {
    pub lon: Real32,
    pub lat: Real32,
    pub u: Real32,
    pub v: Real32,
}

/// The first `n` points that are used and have both components, with their wind.
pub open spec fn rows_of(
    u: Seq<Real32>,
    v: Seq<Real32>,
    cache: GridCache,
    bbox: Option<Grib2Bbox>,
    n: nat,
) -> Seq<WindRow>
    decreases n,
{
    if n == 0 {
        Seq::empty()
    } else {
        let k = n - 1;
        let rest = rows_of(u, v, cache, bbox, k as nat);
        let p = cache.latlons@[k];
        if cache.keeps(bbox, p) && u[k].finite() && v[k].finite() {
            rest.push(WindRow { lon: p.1, lat: p.0, u: u[k], v: v[k] })
        } else {
            rest
        }
    }
}

/// The points of the grid that are used and have both components, with their
/// wind. The components stand in the order of the points.
pub fn build_rows(
    u_values: &Vec<Real32>,
    v_values: &Vec<Real32>,
    cache: &GridCache,
    bbox: Option<Grib2Bbox>,
) -> (rows: Vec<WindRow>)
    requires
        u_values@.len() >= cache.latlons@.len(),
        v_values@.len() >= cache.latlons@.len(),
    ensures
        rows@ == rows_of(u_values@, v_values@, *cache, bbox, cache.latlons@.len()),
{
    let mut rows: Vec<WindRow> = Vec::new();
    let mut k: usize = 0;
    while k < cache.latlons.len()
        invariant
            k <= cache.latlons@.len(),
            u_values@.len() >= cache.latlons@.len(),
            v_values@.len() >= cache.latlons@.len(),
            rows@ == rows_of(u_values@, v_values@, *cache, bbox, k as nat),
        decreases cache.latlons@.len() - k,
    {
        let p: (Real32, Real32) = cache.latlons[k];
        let mut used: bool = is_wanted(bbox, p);
        match &cache.kept_axes {
            Some((kept_lats, kept_lons)) => {
                if !kept_lats.contains(&p.0.bits) || !kept_lons.contains(&p.1.bits) {
                    used = false;
                }
            },
            None => {},
        }
        let u: Real32 = u_values[k];
        let v: Real32 = v_values[k];
        if used && u.is_finite() && v.is_finite() {
            rows.push(WindRow { lon: p.1, lat: p.0, u, v });
        }
        k += 1;
    }
    rows
}

/// The values of one component at one time.
pub struct Decoded {
    pub t: i64,
    pub is_u: bool,
    pub values: Vec<Real32>,
}

/// The place of the last component of a kind at a time, or -1.
pub open spec fn last_of(decoded: Seq<Decoded>, t: i64, is_u: bool) -> int
    decreases decoded.len(),
{
    if decoded.len() == 0 {
        -1
    } else if decoded.last().t == t && decoded.last().is_u == is_u {
        decoded.len() - 1
    } else {
        last_of(decoded.drop_last(), t, is_u)
    }
}

/// Where a component was found, it is one of that time and kind.
proof fn lemma_last_of(decoded: Seq<Decoded>, t: i64, is_u: bool)
    ensures
        ({
            let k = last_of(decoded, t, is_u);
            &&& -1 <= k < decoded.len()
            &&& k >= 0 ==> decoded[k].t == t && decoded[k].is_u == is_u
        }),
    decreases decoded.len(),
{
    if decoded.len() > 0 {
        lemma_last_of(decoded.drop_last(), t, is_u);
    }
}

/// The rows of a time: those of the last eastward and the last northward
/// component, none where one of the two is missing.
pub open spec fn frame_rows(
    decoded: Seq<Decoded>,
    t: i64,
    cache: GridCache,
    bbox: Option<Grib2Bbox>,
) -> Seq<WindRow> {
    let u = last_of(decoded, t, true);
    let v = last_of(decoded, t, false);
    if u >= 0 && v >= 0 {
        rows_of(decoded[u].values@, decoded[v].values@, cache, bbox, cache.latlons@.len())
    } else {
        Seq::empty()
    }
}

/// Whether each number is less than those after it.
pub open spec fn ascending(s: Seq<i64>) -> bool {
    forall|i: int, j: int| 0 <= i < j < s.len() ==> s[i] < s[j]
}

/// The place of the last component of a kind at a time.
fn find_last(decoded: &Vec<Decoded>, t: i64, is_u: bool) -> (place: Option<usize>)
    ensures
        match place {
            Some(k) => k == last_of(decoded@, t, is_u),
            None => last_of(decoded@, t, is_u) == -1,
        },
{
    let mut k: usize = decoded.len();
    assert(decoded@.take(k as int) =~= decoded@);
    while k > 0
        invariant
            k <= decoded@.len(),
            last_of(decoded@.take(k as int), t, is_u) == last_of(decoded@, t, is_u),
        decreases k,
    {
        proof {
            assert(decoded@.take(k as int).last() == decoded@[k - 1]);
            assert(decoded@.take(k as int).drop_last() =~= decoded@.take(k - 1));
        }
        k -= 1;
        if decoded[k].t == t && decoded[k].is_u == is_u {
            return Some(k);
        }
    }
    assert(decoded@.take(0) =~= Seq::empty());
    None
}

/// The times at which a component holds, each once, in ascending order.
fn distinct_times(decoded: &Vec<Decoded>) -> (times: Vec<i64>)
    ensures
        ascending(times@),
        forall|k: int| 0 <= k < decoded@.len() ==> times@.contains((#[trigger] decoded@[k]).t),
        forall|i: int| 0 <= i < times@.len() ==> at_time(decoded@, #[trigger] times@[i]),
{
    let mut times: Vec<i64> = Vec::new();
    let mut k: usize = 0;
    while k < decoded.len()
        invariant
            k <= decoded@.len(),
            ascending(times@),
            forall|j: int| 0 <= j < k ==> times@.contains((#[trigger] decoded@[j]).t),
            forall|i: int| 0 <= i < times@.len() ==> at_time(decoded@, #[trigger] times@[i]),
        decreases decoded@.len() - k,
    {
        let t: i64 = decoded[k].t;
        assert(decoded@[k as int].t == t);
        assert(at_time(decoded@, t));
        let mut p: usize = times.len();
        while p > 0 && times[p - 1] >= t
            invariant
                p <= times@.len(),
                ascending(times@),
                forall|i: int| p <= i < times@.len() ==> times@[i] >= t,
            decreases p,
        {
            p -= 1;
        }
        let ghost before = times@;
        if p < times.len() && times[p] == t {
        } else {
            times.insert(p, t);
            proof {
                let after = before.insert(p as int, t);
                assert(times@ == after);
                assert forall|i: int, j: int| 0 <= i < j < after.len() implies after[i] < after[j] by {
                    let i0 = if i < p {
                        i
                    } else {
                        i - 1
                    };
                    let j0 = if j < p {
                        j
                    } else {
                        j - 1
                    };
                    if i == p {
                        assert(after[j] == before[j0]);
                        if j0 > p {
                            assert(before[p as int] < before[j0]);
                        }
                    } else if j == p {
                        assert(after[i] == before[i0]);
                        if i0 < p - 1 {
                            assert(before[i0] < before[p - 1]);
                        }
                    } else {
                        assert(after[i] == before[i0]);
                        assert(after[j] == before[j0]);
                    }
                }
                assert forall|i: int| 0 <= i < after.len() implies at_time(decoded@, #[trigger] after[i]) by {
                    if i < p {
                        assert(after[i] == before[i]);
                    } else if i > p {
                        assert(after[i] == before[i - 1]);
                    }
                }
                assert(after[p as int] == t);
            }
        }
        proof {
            assert forall|j: int| 0 <= j < k + 1 implies times@.contains((#[trigger] decoded@[j]).t) by {
                if j < k {
                    assert(before.contains(decoded@[j].t));
                    let i = choose|i: int| 0 <= i < before.len() && before[i] == decoded@[j].t;
                    if times@ != before {
                        if i < p {
                            assert(times@[i] == before[i]);
                        } else {
                            assert(times@[i + 1] == before[i]);
                        }
                    }
                } else {
                    assert(times@[p as int] == t);
                }
            }
        }
        k += 1;
    }
    times
}

/// Whether a component holds at a time.
pub open spec fn at_time(decoded: Seq<Decoded>, t: i64) -> bool {
    exists|k: int| 0 <= k < decoded.len() && (#[trigger] decoded[k]).t == t
}

/// The frames of a file: the rows of each time that has any, in ascending order
/// of time.
pub fn assemble_frames(decoded: &Vec<Decoded>, cache: &GridCache, bbox: Option<Grib2Bbox>) -> (r: (
    Vec<i64>,
    Vec<Vec<WindRow>>,
))
    requires
        forall|k: int| 0 <= k < decoded@.len() ==> (#[trigger] decoded@[k]).values@.len()
            >= cache.latlons@.len(),
    ensures
        r.0@.len() == r.1@.len(),
        ascending(r.0@),
        forall|k: int|
            0 <= k < r.0@.len() ==> (#[trigger] r.1@[k])@ == frame_rows(
                decoded@,
                r.0@[k],
                *cache,
                bbox,
            ) && r.1@[k]@.len() > 0,
        forall|t: i64| frame_rows(decoded@, t, *cache, bbox).len() > 0 ==> #[trigger] r.0@.contains(t),
        forall|k: int| 0 <= k < r.0@.len() ==> at_time(decoded@, #[trigger] r.0@[k]),
{
    let all: Vec<i64> = distinct_times(decoded);
    let mut times: Vec<i64> = Vec::new();
    let mut frames: Vec<Vec<WindRow>> = Vec::new();
    let mut k: usize = 0;
    while k < all.len()
        invariant
            k <= all@.len(),
            ascending(all@),
            forall|i: int| 0 <= i < all@.len() ==> at_time(decoded@, #[trigger] all@[i]),
            forall|i: int| 0 <= i < decoded@.len() ==> (#[trigger] decoded@[i]).values@.len()
                >= cache.latlons@.len(),
            times@.len() == frames@.len(),
            ascending(times@),
            forall|i: int| 0 <= i < times@.len() ==> at_time(decoded@, #[trigger] times@[i]),
            k < all@.len() ==> forall|i: int| 0 <= i < times@.len() ==> #[trigger] times@[i] < all@[k as int],
            forall|i: int|
                0 <= i < times@.len() ==> (#[trigger] frames@[i])@ == frame_rows(
                    decoded@,
                    times@[i],
                    *cache,
                    bbox,
                ) && frames@[i]@.len() > 0,
            forall|i: int|
                0 <= i < k && frame_rows(decoded@, #[trigger] all@[i], *cache, bbox).len() > 0
                    ==> times@.contains(all@[i]),
        decreases all@.len() - k,
    {
        let t: i64 = all[k];
        let ghost before = times@;
        proof {
            lemma_last_of(decoded@, t, true);
            lemma_last_of(decoded@, t, false);
            assert(at_time(decoded@, all@[k as int]));
        }
        match (find_last(decoded, t, true), find_last(decoded, t, false)) {
            (Some(u), Some(v)) => {
                let rows: Vec<WindRow> = build_rows(&decoded[u].values, &decoded[v].values, cache, bbox);
                if rows.len() > 0 {
                    times.push(t);
                    frames.push(rows);
                    assert(times@[before.len() as int] == t);
                }
            },
            _ => {},
        }
        proof {
            assert forall|i: int|
                0 <= i < k + 1 && frame_rows(decoded@, #[trigger] all@[i], *cache, bbox).len() > 0
                implies times@.contains(all@[i]) by {
                if i < k {
                    assert(before.contains(all@[i]));
                    let j = choose|j: int| 0 <= j < before.len() && before[j] == all@[i];
                    assert(times@[j] == before[j]);
                }
            }
        }
        k += 1;
    }
    proof {
        assert forall|t: i64| frame_rows(decoded@, t, *cache, bbox).len() > 0 implies
            #[trigger] times@.contains(t) by {
            lemma_last_of(decoded@, t, true);
            let u = last_of(decoded@, t, true);
            assert(all@.contains(decoded@[u].t));
            let i = choose|i: int| 0 <= i < all@.len() && all@[i] == t;
            assert(frame_rows(decoded@, all@[i], *cache, bbox).len() > 0);
        }
    }
    (times, frames)
}

/// The positive gaps between neighbouring times.
pub open spec fn gaps(times: Seq<i64>) -> Seq<i64>
    decreases times.len(),
{
    if times.len() < 2 {
        Seq::empty()
    } else {
        let rest = gaps(times.drop_last());
        let gap = times[times.len() - 1] - times[times.len() - 2];
        if gap > 0 {
            rest.push(gap as i64)
        } else {
            rest
        }
    }
}

/// The order of numbers.
pub open spec fn no_greater() -> spec_fn(i64, i64) -> bool {
    |a: i64, b: i64| a <= b
}

/// The median of the positive gaps between neighbouring times: the one in the
/// middle of their sorted list, the later of two middle ones. It is 1 where there
/// is no such gap.
pub open spec fn median_gap(times: Seq<i64>) -> i64 {
    let g = gaps(times);
    if g.len() == 0 {
        1
    } else {
        g.sort_by(no_greater())[g.len() as int / 2]
    }
}

/// Puts a number into its place in a sorted sequence.
fn put_sorted(s: &mut Vec<i64>, x: i64)
    requires
        sorted_by(old(s)@, no_greater()),
    ensures
        sorted_by(final(s)@, no_greater()),
        final(s)@.to_multiset() == old(s)@.to_multiset().insert(x),
{
    let ghost before = s@;
    let mut p: usize = s.len();
    while p > 0 && s[p - 1] > x
        invariant
            p <= s@.len(),
            forall|i: int| p <= i < s@.len() ==> s@[i] > x,
        decreases p,
    {
        p -= 1;
    }
    s.insert(p, x);
    proof {
        vstd::seq_lib::to_multiset_insert(before, p as int, x);
        let after = before.insert(p as int, x);
        assert forall|i: int, j: int| 0 <= i < j < after.len() implies #[trigger] no_greater()(
            after[i],
            after[j],
        ) by {
            let i0 = if i < p {
                i
            } else {
                i - 1
            };
            let j0 = if j < p {
                j
            } else {
                j - 1
            };
            if i == p {
                assert(after[j] == before[j0]);
            } else if j == p {
                assert(after[i] == before[i0]);
                if i0 < p - 1 {
                    assert(no_greater()(before[i0], before[p - 1]));
                }
            } else {
                assert(after[i] == before[i0]);
                assert(after[j] == before[j0]);
                assert(no_greater()(before[i0], before[j0]));
            }
        }
    }
}

/// The median of the positive gaps between neighbouring times, 1 where there is
/// none.
pub fn compute_median_step_seconds(times: &Vec<i64>) -> (step: i64)
    requires
        forall|k: int|
            0 <= k < times@.len() - 1 ==> i64::MIN <= #[trigger] times@[k + 1] - times@[k] <= i64::MAX,
    ensures
        step == median_gap(times@),
        step > 0,
{
    let mut sorted: Vec<i64> = Vec::new();
    let mut k: usize = 1;
    if times.len() == 0 {
        return 1;
    }
    assert(times@.take(1).len() == 1);
    assert(sorted@ =~= gaps(times@.take(1)));
    while k < times.len()
        invariant
            1 <= k <= times@.len(),
            forall|i: int|
                0 <= i < times@.len() - 1 ==> i64::MIN <= #[trigger] times@[i + 1] - times@[i] <= i64::MAX,
            sorted_by(sorted@, no_greater()),
            sorted@.to_multiset() == gaps(times@.take(k as int)).to_multiset(),
            forall|i: int| 0 <= i < sorted@.len() ==> sorted@[i] > 0,
        decreases times@.len() - k,
    {
        assert(i64::MIN <= times@[(k - 1) + 1] - times@[k - 1] <= i64::MAX);
        let gap: i64 = times[k] - times[k - 1];
        let ghost before = sorted@;
        let ghost known = gaps(times@.take(k as int));
        proof {
            let more = times@.take(k + 1);
            assert(more.drop_last() =~= times@.take(k as int));
            assert(more[more.len() - 1] == times@[k as int]);
            assert(more[more.len() - 2] == times@[k - 1]);
            broadcast use vstd::seq_lib::group_to_multiset_ensures;
            assert(known.push(gap).to_multiset() =~= known.to_multiset().insert(gap));
        }
        if gap > 0 {
            put_sorted(&mut sorted, gap);
            proof {
                assert forall|i: int| 0 <= i < sorted@.len() implies sorted@[i] > 0 by {
                    broadcast use vstd::seq_lib::group_to_multiset_ensures;
                    assert(sorted@.contains(sorted@[i]));
                    assert(sorted@.to_multiset().count(sorted@[i]) > 0);
                    assert(before.to_multiset().insert(gap).count(sorted@[i]) > 0);
                    if sorted@[i] != gap {
                        assert(before.contains(sorted@[i]));
                    }
                }
            }
        }
        k += 1;
    }
    proof {
        assert(times@.take(k as int) =~= times@);
        let g = gaps(times@);
        g.lemma_sort_by_ensures(no_greater());
        vstd::seq_lib::lemma_sorted_unique(sorted@, g.sort_by(no_greater()), no_greater());
        vstd::seq_lib::to_multiset_len(sorted@);
        vstd::seq_lib::to_multiset_len(g);
    }
    if sorted.len() == 0 {
        1
    } else {
        sorted[sorted.len() / 2]
    }
}

/// Why a file gives no frames.
#[derive(Debug)]
pub enum LoadError {
    /// The file could not be read; the reason in words.
    Grib(String),
    /// At no time there were both components of the wind at ten metres.
    NoFrames,
}

impl LoadError {
    /// The error in words.
    pub open spec fn words(&self) -> Seq<char> {
        match self {
            LoadError::Grib(e) => "GRIB2 error: "@ + e@,
            LoadError::NoFrames =>
                "GRIB2 file contained no complete UGRD/VGRD pair at 10 m above ground"@,
        }
    }

    /// The error in words.
    pub fn message(&self) -> (s: String)
        ensures
            s@ == self.words(),
    {
        match self {
            LoadError::Grib(e) => {
                let mut s: String = "GRIB2 error: ".to_owned();
                s.append(e.as_str());
                s
            },
            LoadError::NoFrames =>
                "GRIB2 file contained no complete UGRD/VGRD pair at 10 m above ground".to_owned(),
        }
    }
}

/// What has to be read of a message.
#[derive(Clone, Copy, Debug, PartialEq, Eq, Structural)]
pub enum Need {
    /// Nothing: the message does not count.
    Nothing,
    /// Its values.
    Values,
    /// Its grid, and its values.
    GridAndValues,
}

/// A walk through the messages of a file.
pub struct Grib2Scan {
    pub stride: usize,
    pub bbox: Option<Grib2Bbox>,
    /// The grid, once a message has told it.
    pub cache: Option<GridCache>,
    /// The times of the messages whose values are to be decoded, and whether each
    /// is an eastward component.
    pub pending: Vec<(i64, bool)>,
}

impl Grib2Scan {
    /// A walk that has seen no message. A stride of 0 counts as 1.
    pub fn new(stride: usize, bbox: Option<Grib2Bbox>) -> (scan: Grib2Scan)
        ensures
            scan.stride == (if stride == 0 {
                1
            } else {
                stride
            }),
            scan.bbox == bbox,
            scan.cache is None,
            scan.pending@ == Seq::<(i64, bool)>::empty(),
    {
        Grib2Scan {
            stride: if stride == 0 {
                1
            } else {
                stride
            },
            bbox,
            cache: None,
            pending: Vec::new(),
        }
    }

    /// What has to be read of the next message.
    pub fn needs(&self, sub: &Submessage) -> (need: Need)
        ensures
            need == (if !(sub.surface_wind() && sub.timed()) {
                Need::Nothing
            } else if self.cache is None {
                Need::GridAndValues
            } else {
                Need::Values
            }),
    {
        match classify(sub) {
            None => Need::Nothing,
            Some(_) => match &self.cache {
                None => Need::GridAndValues,
                Some(_) => Need::Values,
            },
        }
    }

    /// Takes in a message: its grid, where it was needed and could be read, and
    /// whether its values can be decoded. The answer tells whether they are to be.
    /// The first grid is kept; a message whose grid was needed and could not be
    /// read is passed over.
    pub fn accept(
        &mut self,
        sub: &Submessage,
        latlons: Option<Vec<(Real32, Real32)>>,
        decodable: bool,
    ) -> (queued: bool)
        requires
            old(self).stride > 1 ==> (latlons matches Some(l) ==> placed(l@, old(self).bbox)),
        ensures
            final(self).stride == old(self).stride,
            final(self).bbox == old(self).bbox,
            ({
                let counts = sub.surface_wind() && sub.timed();
                let takes_grid = counts && old(self).cache is None && latlons is Some;
                &&& queued == (counts && decodable && (old(self).cache is Some || latlons is Some))
                &&& !takes_grid ==> final(self).cache == old(self).cache
                &&& takes_grid ==> (final(self).cache matches Some(c) && c.latlons == latlons->Some_0
                    && (c.kept_axes is Some <==> old(self).stride > 1) && (c.kept_axes matches Some((
                    kept_lats,
                    kept_lons,
                )) ==> {
                    let points = wanted_points(latlons->Some_0@, old(self).bbox);
                    &&& kept_lats@ == axes::every(axes::axis_of(lats(points)), old(self).stride as int)
                    &&& kept_lons@ == axes::every(axes::axis_of(lons(points)), old(self).stride as int)
                }))
                &&& queued ==> final(self).pending@ == old(self).pending@.push(
                    (sub.valid_at() as i64, sub.number == Some(PARAM_NUMBER_UGRD)),
                )
                &&& !queued ==> final(self).pending@ == old(self).pending@
            }),
    {
        let (t, is_u): (i64, bool) = match classify(sub) {
            None => {
                return false;
            },
            Some(c) => c,
        };
        if self.cache.is_none() {
            match latlons {
                None => {
                    return false;
                },
                Some(l) => {
                    self.cache = Some(GridCache::new(l, self.stride, self.bbox));
                },
            }
        }
        if !decodable {
            return false;
        }
        self.pending.push((t, is_u));
        true
    }
}

/// The components whose values could be decoded and are as many as the points of
/// the grid.
pub open spec fn usable(decoded: Seq<(i64, bool, Option<Vec<Real32>>)>, len: nat) -> Seq<
    (i64, bool, Seq<Real32>),
>
    decreases decoded.len(),
{
    if decoded.len() == 0 {
        Seq::empty()
    } else {
        let rest = usable(decoded.drop_last(), len);
        match decoded.last().2 {
            Some(values) if values@.len() == len => rest.push(
                (decoded.last().0, decoded.last().1, values@),
            ),
            _ => rest,
        }
    }
}

/// What components hold.
pub open spec fn contents(decoded: Seq<Decoded>) -> Seq<(i64, bool, Seq<Real32>)> {
    Seq::new(decoded.len(), |k: int| (decoded[k].t, decoded[k].is_u, decoded[k].values@))
}

/// The components whose values could be decoded and are as many as the points of
/// the grid, in their order.
pub fn keep_usable(mut decoded: Vec<(i64, bool, Option<Vec<Real32>>)>, len: usize) -> (kept: Vec<
    Decoded,
>)
    ensures
        contents(kept@) == usable(decoded@, len as nat),
        forall|k: int| 0 <= k < kept@.len() ==> (#[trigger] kept@[k]).values@.len() == len,
        forall|k: int| 0 <= k < kept@.len() ==> told_at(decoded@, (#[trigger] kept@[k]).t),
{
    let ghost all = decoded@;
    let mut reversed: Vec<(i64, bool, Option<Vec<Real32>>)> = Vec::new();
    while decoded.len() > 0
        invariant
            all.len() == decoded@.len() + reversed@.len(),
            decoded@ == all.take(decoded@.len() as int),
            forall|k: int| 0 <= k < reversed@.len() ==> #[trigger] reversed@[k] == all[all.len() - 1 - k],
        decreases decoded@.len(),
    {
        let ghost n = decoded@.len();
        match decoded.pop() {
            Some(item) => {
                reversed.push(item);
                assert(decoded@ =~= all.take(n - 1));
            },
            None => {},
        }
    }
    let mut kept: Vec<Decoded> = Vec::new();
    assert(usable(all.take(0), len as nat) =~= Seq::empty());
    assert(contents(kept@) =~= Seq::empty());
    while reversed.len() > 0
        invariant
            reversed@.len() <= all.len(),
            forall|k: int| 0 <= k < reversed@.len() ==> #[trigger] reversed@[k] == all[all.len() - 1 - k],
            contents(kept@) == usable(all.take(all.len() - reversed@.len()), len as nat),
            forall|k: int| 0 <= k < kept@.len() ==> (#[trigger] kept@[k]).values@.len() == len,
            forall|k: int| 0 <= k < kept@.len() ==> told_at(all, (#[trigger] kept@[k]).t),
        decreases reversed@.len(),
    {
        let ghost done = all.len() - reversed@.len();
        let ghost before = kept@;
        match reversed.pop() {
            Some((t, is_u, values)) => {
                proof {
                    assert(all[done] == (t, is_u, values));
                    assert(all.take(done + 1).drop_last() =~= all.take(done));
                    assert(told_at(all, t));
                }
                match values {
                    Some(v) => {
                        if v.len() == len {
                            kept.push(Decoded { t, is_u, values: v });
                            assert(contents(kept@) =~= contents(before).push((t, is_u, v@)));
                        }
                    },
                    None => {},
                }
            },
            None => {},
        }
    }
    assert(all.take(all.len() as int) =~= all);
    kept
}

/// Whether a component holds at a time.
pub open spec fn told_at(decoded: Seq<(i64, bool, Option<Vec<Real32>>)>, t: i64) -> bool {
    exists|k: int| 0 <= k < decoded.len() && (#[trigger] decoded[k]).0 == t
}

/// The frames of a file, and when they hold.
pub struct LoadedFrames {
    pub times: Vec<i64>,
    pub frames: Vec<Vec<WindRow>>,
    /// Seconds between frames.
    pub step_seconds: i64,
    /// The first and the last time, where both have a date.
    pub range: Option<(calendar::UtcTime, calendar::UtcTime)>,
}

/// The first and the last time, where both have a date.
pub open spec fn time_range(times: Seq<i64>) -> Option<(calendar::UtcTime, calendar::UtcTime)> {
    if times.len() > 0 && calendar::FIRST_SECOND <= times[0] && times.last() <= calendar::LAST_SECOND
        && calendar::FIRST_SECOND <= times.last() && times[0] <= calendar::LAST_SECOND {
        Some(
            (
                (calendar::UtcTime { seconds: times[0], nanos: 0 }),
                (calendar::UtcTime { seconds: times.last(), nanos: 0 }),
            ),
        )
    } else {
        None
    }
}

/// The frames of a file out of its grid and its decoded components. There are
/// none where the grid is missing or no time has rows.
pub fn finish_load(
    cache: Option<&GridCache>,
    decoded: Vec<(i64, bool, Option<Vec<Real32>>)>,
    bbox: Option<Grib2Bbox>,
) -> (r: Result<LoadedFrames, LoadError>)
    requires
        forall|i: int, j: int|
            0 <= i < decoded@.len() && 0 <= j < decoded@.len() ==> (#[trigger] decoded@[i]).0 - (
            #[trigger] decoded@[j]).0 <= i64::MAX,
    ensures
        r matches Err(e) ==> e is NoFrames,
        r is Ok ==> cache is Some,
        r matches Ok(l) ==> cache matches Some(c) && exists|kept: Seq<Decoded>| {
            &&& contents(kept) == usable(decoded@, c.latlons@.len())
            &&& #[trigger] frames_of(l, kept, *c, bbox)
        },
        r is Err && cache is Some ==> exists|kept: Seq<Decoded>| {
            &&& contents(kept) == usable(decoded@, cache->Some_0.latlons@.len())
            &&& #[trigger] frameless(kept, *cache->Some_0, bbox)
        },
{
    let cache: &GridCache = match cache {
        None => {
            return Err(LoadError::NoFrames);
        },
        Some(c) => c,
    };
    let ghost raw = decoded@;
    let kept: Vec<Decoded> = keep_usable(decoded, cache.latlons.len());
    let (times, frames): (Vec<i64>, Vec<Vec<WindRow>>) = assemble_frames(&kept, cache, bbox);
    if frames.len() == 0 {
        proof {
            assert forall|t: i64| #[trigger] frame_rows(kept@, t, *cache, bbox).len() == 0 by {
                if frame_rows(kept@, t, *cache, bbox).len() > 0 {
                    assert(times@.contains(t));
                }
            }
            assert(frameless(kept@, *cache, bbox));
        }
        return Err(LoadError::NoFrames);
    }
    proof {
        assert forall|k: int| 0 <= k < times@.len() - 1 implies i64::MIN <= #[trigger] times@[k + 1]
            - times@[k] <= i64::MAX by {
            lemma_time_told(raw, kept@, times@[k]);
            lemma_time_told(raw, kept@, times@[k + 1]);
            let i = choose|i: int| 0 <= i < raw.len() && (#[trigger] raw[i]).0 == times@[k + 1];
            let j = choose|j: int| 0 <= j < raw.len() && (#[trigger] raw[j]).0 == times@[k];
            assert(raw[i].0 - raw[j].0 <= i64::MAX);
        }
    }
    let step_seconds: i64 = compute_median_step_seconds(&times);
    let range: Option<(calendar::UtcTime, calendar::UtcTime)> = match (
        calendar::utc_second(times[0]),
        calendar::utc_second(times[times.len() - 1]),
    ) {
        (Some(start), Some(end)) => Some((start, end)),
        _ => None,
    };
    let loaded: LoadedFrames = LoadedFrames { times, frames, step_seconds, range };
    assert(frames_of(loaded, kept@, *cache, bbox));
    Ok(loaded)
}

/// A time at which a usable component holds was told by some component.
proof fn lemma_time_told(raw: Seq<(i64, bool, Option<Vec<Real32>>)>, kept: Seq<Decoded>, t: i64)
    requires
        forall|k: int| 0 <= k < kept.len() ==> told_at(raw, (#[trigger] kept[k]).t),
        at_time(kept, t),
    ensures
        told_at(raw, t),
{
    let k = choose|k: int| 0 <= k < kept.len() && (#[trigger] kept[k]).t == t;
    assert(told_at(raw, kept[k].t));
}

/// Whether no time has rows.
pub open spec fn frameless(kept: Seq<Decoded>, cache: GridCache, bbox: Option<Grib2Bbox>) -> bool {
    forall|t: i64| (#[trigger] frame_rows(kept, t, cache, bbox)).len() == 0
}

/// Whether frames are those of the times that have rows, in ascending order, with
/// their median step and their range.
pub open spec fn frames_of(
    l: LoadedFrames,
    kept: Seq<Decoded>,
    cache: GridCache,
    bbox: Option<Grib2Bbox>,
) -> bool {
    &&& l.times@.len() == l.frames@.len() > 0
    &&& ascending(l.times@)
    &&& forall|k: int|
        0 <= k < l.times@.len() ==> (#[trigger] l.frames@[k])@ == frame_rows(
            kept,
            l.times@[k],
            cache,
            bbox,
        ) && l.frames@[k]@.len() > 0
    &&& forall|t: i64| frame_rows(kept, t, cache, bbox).len() > 0 ==> #[trigger] l.times@.contains(t)
    &&& l.step_seconds == median_gap(l.times@)
    &&& l.step_seconds > 0
    &&& l.range == time_range(l.times@)
}

/// Rows with the wind of their components.
pub open spec fn sampled<W: Fn(Real32, Real32) -> WindSample>(rows: Seq<WindRow>, wind: W) -> Seq<
    WeatherRow,
> {
    Seq::new(
        rows.len(),
        |k: int|
            WeatherRow {
                lon: rows[k].lon,
                lat: rows[k].lat,
                sample: given::gives2(wind, rows[k].u, rows[k].v),
            },
    )
}

impl LoadedFrames {
    /// The frames as a wind map. `wind` tells speed and direction of a wind from its
    /// components, `seconds` makes a number of whole seconds, `crossfade` tells how long
    /// the blend from the last frame to the first takes, and the others are those of
    /// `WindMap::new`.
    pub fn into_wind_map<
        W: Fn(Real32, Real32) -> WindSample,
        M: Fn(Real32, Real32) -> Real32,
        E: Fn(Real32, Real32, Real32) -> bool,
        C: Fn(Real32, Real32, Real32) -> Option<usize>,
        S: Fn(i64) -> Real32,
        F: Fn(Real32) -> Real32,
    >(self, wind: &W, minus: &M, even: &E, cell: &C, seconds: &S, crossfade: &F) -> (map:
        TimedWindMap)
        requires
            self.frames@.len() > 0,
            self.range matches Some((start, end)) ==> start.wf() && end.wf() && start.instant()
                <= end.instant(),
            (Real32 { bits: 0 }).below(given::gives1(*seconds, self.step_seconds)),
            given::settled2(*wind),
            given::settled2(*minus),
            given::settled3(*even),
            given::settled3(*cell),
            given::settled1(*seconds),
            given::settled1(*crossfade),
        ensures
            map.wf(),
            map.frames@.len() == self.frames@.len(),
            forall|k: int|
                0 <= k < map.frames@.len() ==> (#[trigger] map.frames@[k]).indexes(
                    sampled(self.frames@[k]@, *wind),
                    *minus,
                    *even,
                    *cell,
                ),
            map.step_seconds == given::gives1(*seconds, self.step_seconds),
            map.crossfade_seconds == given::gives1(*crossfade, map.step_seconds),
            map.time_range == self.range,
    {
        let mut frames: Vec<WindMap> = Vec::new();
        let mut k: usize = 0;
        while k < self.frames.len()
            invariant
                k <= self.frames@.len(),
                frames@.len() == k,
                given::settled2(*wind),
                given::settled2(*minus),
                given::settled3(*even),
                given::settled3(*cell),
                wind_map::all_wf(frames@),
                forall|j: int|
                    0 <= j < k ==> (#[trigger] frames@[j]).indexes(
                        sampled(self.frames@[j]@, *wind),
                        *minus,
                        *even,
                        *cell,
                    ),
            decreases self.frames@.len() - k,
        {
            let ghost before = frames@;
            let rows: Vec<WeatherRow> = sample_rows(&self.frames[k], wind);
            frames.push(WindMap::new(rows, minus, even, cell));
            assert forall|j: int| 0 <= j < frames@.len() implies (#[trigger] frames@[j]).wf()
                && frames@[j].indexes(sampled(self.frames@[j]@, *wind), *minus, *even, *cell) by {
                if j < k {
                    assert(frames@[j] == before[j]);
                    assert(before[j].wf());
                }
            }
            k += 1;
        }
        let map: TimedWindMap = TimedWindMap::new(frames, seconds(self.step_seconds), crossfade);
        match self.range {
            None => map,
            Some((start, end)) => map.with_time_range(start, end),
        }
    }
}

/// Rows with the wind of their components.
fn sample_rows<W: Fn(Real32, Real32) -> WindSample>(rows: &Vec<WindRow>, wind: &W) -> (out: Vec<
    WeatherRow,
>)
    requires
        given::settled2(*wind),
    ensures
        out@ == sampled(rows@, *wind),
{
    let mut out: Vec<WeatherRow> = Vec::new();
    let mut k: usize = 0;
    while k < rows.len()
        invariant
            k <= rows@.len(),
            given::settled2(*wind),
            out@ == sampled(rows@, *wind).take(k as int),
        decreases rows@.len() - k,
    {
        let row: &WindRow = &rows[k];
        out.push(WeatherRow { lon: row.lon, lat: row.lat, sample: wind(row.u, row.v) });
        assert(out@ =~= sampled(rows@, *wind).take(k + 1));
        k += 1;
    }
    assert(out@ =~= sampled(rows@, *wind));
    out
}

} // verus!
