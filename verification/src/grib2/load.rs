//! The frames of a GRIB2 file.
use crate::axes;
use crate::grib2;
use crate::grib2::grib_wrap;
use crate::grib2::grib_wrap::{heads_in, level_in, points_in, values_in, Head, Level};
use crate::grib2::packing;
use crate::grib2::sections;
use crate::grib2::sections::Place;
use crate::grib2::{
    finish_load, Decoded, Grib2Bbox, Grib2Scan, GridCache, LoadError, LoadedFrames, Need, Submessage,
    TimeUnit, DISCIPLINE_METEOROLOGICAL, PARAM_CATEGORY_MOMENTUM, PARAM_NUMBER_UGRD,
    PARAM_NUMBER_VGRD,
};
use crate::number::{Real, Real32};
use vstd::prelude::*;

verus! {

/// The unit of time with a code.
pub open spec fn unit_named(code: u8) -> TimeUnit {
    if code == 0 {
        TimeUnit::Minute
    } else if code == 1 {
        TimeUnit::Hour
    } else if code == 2 {
        TimeUnit::Day
    } else if code == 3 {
        TimeUnit::Month
    } else if code == 4 {
        TimeUnit::Year
    } else if code == 5 {
        TimeUnit::Decade
    } else if code == 6 {
        TimeUnit::Normal
    } else if code == 7 {
        TimeUnit::Century
    } else if code == 10 {
        TimeUnit::ThreeHours
    } else if code == 11 {
        TimeUnit::SixHours
    } else if code == 12 {
        TimeUnit::TwelveHours
    } else if code == 13 {
        TimeUnit::Second
    } else if code == 255 {
        TimeUnit::Missing
    } else {
        TimeUnit::Unnamed(code)
    }
}

/// The unit of time with a code.
pub fn time_unit(code: u8) -> (unit: TimeUnit)
    ensures
        unit == unit_named(code),
{
    match code {
        0 => TimeUnit::Minute,
        1 => TimeUnit::Hour,
        2 => TimeUnit::Day,
        3 => TimeUnit::Month,
        4 => TimeUnit::Year,
        5 => TimeUnit::Decade,
        6 => TimeUnit::Normal,
        7 => TimeUnit::Century,
        10 => TimeUnit::ThreeHours,
        11 => TimeUnit::SixHours,
        12 => TimeUnit::TwelveHours,
        13 => TimeUnit::Second,
        255 => TimeUnit::Missing,
        _ => TimeUnit::Unnamed(code),
    }
}

/// What is told of a message.
pub open spec fn message_of(head: Head, level: Option<Level>) -> Submessage {
    Submessage {
        discipline: head.discipline,
        category: head.category,
        number: head.number,
        surface: match level {
            Some(l) => l.surface,
            None => None,
        },
        forecast: match level {
            Some(l) => match l.forecast {
                Some((code, value)) => Some((unit_named(code), value)),
                None => None,
            },
            None => None,
        },
        ref_time: head.ref_time,
    }
}

/// What is told of a message.
pub fn submessage(head: &Head, level: &Option<Level>) -> (sub: Submessage)
    ensures
        sub == message_of(*head, *level),
{
    let (surface, forecast): (Option<(u8, Real)>, Option<(TimeUnit, u32)>) = match level {
        None => (None, None),
        Some(l) => (
            l.surface,
            match l.forecast {
                Some((code, value)) => Some((time_unit(code), value)),
                None => None,
            },
        ),
    };
    Submessage {
        discipline: head.discipline,
        category: head.category,
        number: head.number,
        surface,
        forecast,
        ref_time: head.ref_time,
    }
}

/// Where and when the values of message `k` hold, where that can be asked for.
pub open spec fn level_of(f: Seq<u8>, k: int) -> Option<Level> {
    if grib_wrap::has_whole_product(f, k) {
        level_in(f, k)
    } else {
        None
    }
}

/// The points of the grid of message `k`, where they can be asked for and told, and are
/// numbers where they have to be sorted.
pub open spec fn points_of(f: Seq<u8>, k: int, stride: usize, bbox: Option<Grib2Bbox>) -> Option<
    Seq<(Real32, Real32)>,
> {
    if !grib_wrap::has_sound_grid(f, k) {
        None
    } else {
        match points_in(f, k) {
            Some(points) if stride > 1 && !grib2::placed(points, bbox) => None,
            told => told,
        }
    }
}

/// The values of message `k`, where they can be asked for and unpacked.
pub open spec fn values_of(f: Seq<u8>, k: int) -> Option<Seq<Real32>> {
    if grib_wrap::has_sound_values(f, k) {
        values_in(f, k)
    } else {
        None
    }
}

/// What a walk through the messages of a file finds.
pub struct Scanned {
    /// The points of the grid.
    pub points: Option<Seq<(Real32, Real32)>>,
    /// When each component holds, whether it is an eastward one, and its values.
    pub decoded: Seq<(i64, bool, Option<Seq<Real32>>)>,
}

/// What a walk through the first `n` messages finds: the first grid that can be told, and
/// the values of all messages from there on that hold a component of surface wind.
pub open spec fn scanned(
    f: Seq<u8>,
    heads: Seq<Head>,
    n: int,
    stride: usize,
    bbox: Option<Grib2Bbox>,
) -> Scanned
    decreases n,
{
    if n <= 0 {
        Scanned { points: None, decoded: Seq::empty() }
    } else {
        let s = scanned(f, heads, n - 1, stride, bbox);
        let sub = message_of(heads[n - 1], level_of(f, n - 1));
        let points = if s.points is None {
            points_of(f, n - 1, stride, bbox)
        } else {
            s.points
        };
        if !(sub.surface_wind() && sub.timed()) || points is None {
            s
        } else {
            Scanned {
                points,
                decoded: s.decoded.push(
                    (
                        sub.valid_at() as i64,
                        sub.number == Some(PARAM_NUMBER_UGRD),
                        values_of(f, n - 1),
                    ),
                ),
            }
        }
    }
}

/// A stride, 0 counting as 1.
pub open spec fn at_least_one(stride: usize) -> usize {
    if stride == 0 {
        1
    } else {
        stride
    }
}

/// Whether a grid is the one of some points, thinned out as asked for.
pub open spec fn cached(
    c: GridCache,
    points: Seq<(Real32, Real32)>,
    stride: usize,
    bbox: Option<Grib2Bbox>,
) -> bool {
    &&& c.latlons@ == points
    &&& c.kept_axes is Some <==> stride > 1
    &&& c.kept_axes matches Some((kept_lats, kept_lons)) ==> {
        let wanted = grib2::wanted_points(points, bbox);
        &&& kept_lats@ == axes::every(axes::axis_of(grib2::lats(wanted)), stride as int)
        &&& kept_lons@ == axes::every(axes::axis_of(grib2::lons(wanted)), stride as int)
    }
}

/// Components with their values as sequences.
pub open spec fn seen(decoded: Seq<(i64, bool, Option<Vec<Real32>>)>) -> Seq<
    (i64, bool, Option<Seq<Real32>>),
> {
    Seq::new(
        decoded.len(),
        |k: int|
            (
                decoded[k].0,
                decoded[k].1,
                match decoded[k].2 {
                    Some(values) => Some(values@),
                    None => None,
                },
            ),
    )
}

/// Whether a result is that of a grid and its components: their frames, or that there are
/// none.
pub open spec fn comes_of(
    r: Result<LoadedFrames, LoadError>,
    c: GridCache,
    decoded: Seq<(i64, bool, Option<Vec<Real32>>)>,
    kept: Seq<Decoded>,
    bbox: Option<Grib2Bbox>,
) -> bool {
    &&& grib2::contents(kept) == grib2::usable(decoded, c.latlons@.len())
    &&& match r {
        Ok(l) => grib2::frames_of(l, kept, c, bbox),
        Err(e) => e is NoFrames && grib2::frameless(kept, c, bbox),
    }
}

/// Whether a result is that of what a walk found.
pub open spec fn loads(
    r: Result<LoadedFrames, LoadError>,
    s: Scanned,
    stride: usize,
    bbox: Option<Grib2Bbox>,
) -> bool {
    match s.points {
        None => r matches Err(LoadError::NoFrames),
        Some(points) => exists|
            c: GridCache,
            decoded: Seq<(i64, bool, Option<Vec<Real32>>)>,
            kept: Seq<Decoded>,
        | #[trigger] comes_of(r, c, decoded, kept, bbox) && cached(c, points, stride, bbox) && seen(
            decoded,
        ) == s.decoded,
    }
}

/// Whether the points that have to be sorted are numbers.
fn are_placed(points: &Vec<(Real32, Real32)>, bbox: Option<Grib2Bbox>) -> (r: bool)
    ensures
        r == grib2::placed(points@, bbox),
{
    let mut k: usize = 0;
    while k < points.len()
        invariant
            k <= points@.len(),
            forall|j: int|
                0 <= j < k && grib2::wanted(bbox, #[trigger] points@[j]) ==> !points@[j].0.nan()
                    && !points@[j].1.nan(),
        decreases points@.len() - k,
    {
        let p: (Real32, Real32) = points[k];
        if grib2::is_wanted(bbox, p) && (p.0.is_nan() || p.1.is_nan()) {
            assert(grib2::wanted(bbox, points@[k as int]));
            return false;
        }
        k += 1;
    }
    true
}

/// Whether a message may hold a component of the wind.
fn is_wind(head: &Head) -> (r: bool)
    ensures
        r == (head.discipline == DISCIPLINE_METEOROLOGICAL && head.category == Some(
            PARAM_CATEGORY_MOMENTUM,
        ) && (head.number == Some(PARAM_NUMBER_UGRD) || head.number == Some(PARAM_NUMBER_VGRD))),
{
    head.discipline == DISCIPLINE_METEOROLOGICAL && (match (head.category, head.number) {
        (Some(category), Some(number)) => category == PARAM_CATEGORY_MOMENTUM && (number
            == PARAM_NUMBER_UGRD || number == PARAM_NUMBER_VGRD),
        _ => false,
    })
}

/// Where and when the values of message `k` hold, where that can be asked for.
fn level(file: &[u8], places: &Vec<Place>, k: usize) -> (r: Option<Level>)
    requires
        sections::framed(file@),
        places@ == sections::fields_of(file@),
        sections::all_inside(file@, places@),
    ensures
        r == level_of(file@, k as int),
{
    if k >= places.len() {
        return None;
    }
    assert(sections::inside(file@, places@[k as int]));
    if sections::is_product_whole(file, places[k].product) {
        grib_wrap::read_level(file, k)
    } else {
        None
    }
}

/// The points of the grid of message `k`, where they can be asked for and told, and are
/// numbers where they have to be sorted.
fn points(file: &[u8], places: &Vec<Place>, k: usize, stride: usize, bbox: Option<Grib2Bbox>) -> (r:
    Option<Vec<(Real32, Real32)>>)
    requires
        sections::framed(file@),
        places@ == sections::fields_of(file@),
        sections::all_inside(file@, places@),
    ensures
        r is Some <==> points_of(file@, k as int, stride, bbox) is Some,
        r matches Some(p) ==> points_of(file@, k as int, stride, bbox) == Some(p@),
        stride > 1 ==> (r matches Some(p) ==> grib2::placed(p@, bbox)),
{
    if k >= places.len() {
        return None;
    }
    assert(sections::inside(file@, places@[k as int]));
    if !packing::is_grid_sound(file, places[k].grid) {
        return None;
    }
    match grib_wrap::read_points(file, k) {
        None => None,
        Some(p) => if stride > 1 && !are_placed(&p, bbox) {
            None
        } else {
            Some(p)
        },
    }
}

/// The values of message `k`, where they can be asked for and unpacked.
fn values(file: &[u8], places: &Vec<Place>, k: usize) -> (r: Option<Vec<Real32>>)
    requires
        sections::framed(file@),
        places@ == sections::fields_of(file@),
        sections::all_inside(file@, places@),
    ensures
        r is Some <==> values_of(file@, k as int) is Some,
        r matches Some(v) ==> values_of(file@, k as int) == Some(v@),
{
    if k >= places.len() {
        return None;
    }
    assert(sections::inside(file@, places@[k as int]));
    if packing::are_values_sound(file, places[k].representation, places[k].data) {
        grib_wrap::read_values(file, k)
    } else {
        None
    }
}

/// The frames of surface wind of a GRIB2 file: of every `stride`-th column and row that
/// lies in a rectangle, where one is given. A file that is not made of whole messages is
/// told of, and so is one without frames. A message that cannot be unpacked is passed over.
pub fn load_grib2(file: &[u8], stride: usize, bbox: Option<Grib2Bbox>) -> (r: Result<
    LoadedFrames,
    LoadError,
>)
    ensures
        !sections::framed(file@) ==> (r matches Err(LoadError::Grib(_))),
        sections::framed(file@) ==> match heads_in(file@) {
            Err(text) => r matches Err(LoadError::Grib(e)) && e@ == text,
            Ok(heads) => loads(
                r,
                scanned(file@, heads, heads.len() as int, at_least_one(stride), bbox),
                at_least_one(stride),
                bbox,
            ),
        },
{
    let places: Vec<Place> = match sections::read_places(file) {
        None => {
            return Err(LoadError::Grib("malformed GRIB2 message".to_owned()));
        },
        Some(places) => places,
    };
    let heads: Vec<Head> = match grib_wrap::read_heads(file) {
        Err(e) => {
            return Err(LoadError::Grib(e));
        },
        Ok(heads) => heads,
    };
    let mut scan: Grib2Scan = Grib2Scan::new(stride, bbox);
    let mut decoded: Vec<(i64, bool, Option<Vec<Real32>>)> = Vec::new();
    let ghost st = at_least_one(stride);
    let ghost n = heads@.len() as int;
    assert(seen(decoded@) =~= Seq::empty());
    let mut k: usize = 0;
    while k < heads.len()
        invariant
            k <= heads@.len(),
            n == heads@.len(),
            st == at_least_one(stride),
            sections::framed(file@),
            heads_in(file@) == Ok::<Seq<Head>, Seq<char>>(heads@),
            places@ == sections::fields_of(file@),
            sections::all_inside(file@, places@),
            scan.stride == st,
            scan.bbox == bbox,
            scan.cache is Some <==> scanned(file@, heads@, k as int, st, bbox).points is Some,
            scan.cache matches Some(c) ==> cached(
                c,
                scanned(file@, heads@, k as int, st, bbox).points->Some_0,
                st,
                bbox,
            ),
            seen(decoded@) == scanned(file@, heads@, k as int, st, bbox).decoded,
            forall|j: int|
                0 <= j < decoded@.len() ==> -200_000_000_000_000_000 < (#[trigger] decoded@[j]).0
                    < 200_000_000_000_000_000,
        decreases heads@.len() - k,
    {
        let head: Head = heads[k];
        let told: Option<Level> = if is_wind(&head) {
            level(file, &places, k)
        } else {
            None
        };
        let sub: Submessage = submessage(&head, &told);
        let need: Need = scan.needs(&sub);
        let grid: Option<Vec<(Real32, Real32)>> = if need == Need::GridAndValues {
            points(file, &places, k, scan.stride, bbox)
        } else {
            None
        };
        if need == Need::Values || grid.is_some() {
            if let Some((t, is_u)) = grib2::classify(&sub) {
                let found: Option<Vec<Real32>> = values(file, &places, k);
                let ghost before = decoded@;
                scan.accept(&sub, grid, true);
                decoded.push((t, is_u, found));
                assert(seen(decoded@) =~= seen(before).push((t, is_u, values_of(file@, k as int))));
            }
        }
        k += 1;
    }
    let ghost all = decoded@;
    let ghost s = scanned(file@, heads@, n, st, bbox);
    match &scan.cache {
        None => finish_load(None, decoded, bbox),
        Some(c) => {
            let r: Result<LoadedFrames, LoadError> = finish_load(Some(c), decoded, bbox);
            proof {
                let kept = if r is Ok {
                    choose|kept: Seq<Decoded>| {
                        &&& grib2::contents(kept) == grib2::usable(all, c.latlons@.len())
                        &&& #[trigger] grib2::frames_of(r->Ok_0, kept, *c, bbox)
                    }
                } else {
                    choose|kept: Seq<Decoded>| {
                        &&& grib2::contents(kept) == grib2::usable(all, c.latlons@.len())
                        &&& #[trigger] grib2::frameless(kept, *c, bbox)
                    }
                };
                assert(comes_of(r, *c, all, kept, bbox));
            }
            r
        },
    }
}

} // verus!
