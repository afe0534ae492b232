//! What holds of the messages that tell wind, and of the frames that they make up.
use crate::axes;
use crate::calendar;
use crate::dates;
use crate::given;
use crate::grib2;
use crate::grib2::grib_wrap::{Head, Level};
use crate::grib2::load;
use crate::grib2::{Decoded, Grib2Bbox, GridCache, LoadedFrames, RefTime, Submessage, TimeUnit, WindRow};
use crate::number::{Real, Real32};
use crate::wind_map::WindSample;
use vstd::multiset::Multiset;
use vstd::prelude::*;
use vstd::relations::*;

verus! {

/// Lead times are told in seconds: by the code of their unit so many to one, unless they
/// come to more than 32 bits hold. Months and longer spans have no length in seconds.
pub proof fn law_lead_times(code: u8, value: u32)
    ensures
        ({
            let lead = grib2::lead_seconds(load::unit_named(code), value);
            let one: int = if code == 13 {
                1
            } else if code == 0 {
                60
            } else if code == 1 {
                3600
            } else if code == 10 {
                10_800
            } else if code == 11 {
                21_600
            } else if code == 12 {
                43_200
            } else if code == 2 {
                86_400
            } else {
                0
            };
            &&& lead is Some <==> one > 0 && one * value <= 0xFFFF_FFFF
            &&& lead matches Some(s) ==> s == one * value
        }),
{
}

/// Units that the table names keep their names apart: two codes tell the same unit only if
/// they are the same.
pub proof fn law_units_differ(a: u8, b: u8)
    ensures
        load::unit_named(a) == load::unit_named(b) ==> a == b,
{
}

/// Times are counted in seconds since 1970: a second more adds one, a minute 60, an hour 3600
/// and a day 86400, and the first second of 1970 is 0.
pub proof fn law_reference_times(a: RefTime, b: RefTime)
    requires
        a.year == b.year,
        a.month == b.month,
    ensures
        b.unix_seconds() - a.unix_seconds() == (b.day - a.day) * 86_400 + (b.hour - a.hour) * 3600 + (
        b.minute - a.minute) * 60 + (b.second - a.second),
        a.year == 1970 && a.month == 1 && a.day == 1 && a.hour == 0 && a.minute == 0 && a.second == 0
            ==> a.unix_seconds() == 0,
{
    let y = a.year as int;
    let m = a.month as int;
    let base = calendar::civil_days(y, m, 0);
    assert(calendar::civil_days(y, m, a.day as int) == base + a.day);
    assert(calendar::civil_days(y, m, b.day as int) == base + b.day);
    dates::law_days_are_counted(1970, 1, 1);
}

/// A reference time counts where its month, day, hour, minute and second are ones that a
/// calendar and a clock have, a leap second among them.
pub proof fn law_reference_times_that_count(a: RefTime)
    ensures
        a.told() <==> !(a.month == 0 || a.month > 12 || a.day == 0 || a.day > 31 || a.hour >= 24
            || a.minute >= 60 || a.second > 60),
{
}

/// A message tells the wind just if it is one of meteorology, of momentum, of the eastward or
/// the northward component, at a height above ground that is neither below 9.5 metres nor
/// above 10.5.
pub proof fn law_messages_that_tell_wind(sub: Submessage)
    ensures
        sub.surface_wind() <==> {
            &&& sub.discipline == 0
            &&& sub.category == Some(2u8)
            &&& sub.number == Some(2u8) || sub.number == Some(3u8)
            &&& match sub.surface {
                Some((kind, h)) => kind == 103 && !h.below(Real { bits: 0x4023_0000_0000_0000 })
                    && !(Real { bits: 0x4025_0000_0000_0000 }).below(h),
                None => false,
            }
        },
{
}

/// A message holds at its reference time and its lead time more.
pub proof fn law_message_holds_after_its_lead(sub: Submessage, unit: TimeUnit, value: u32, s: int)
    requires
        sub.forecast == Some((unit, value)),
        grib2::lead_seconds(unit, value) == Some(s),
    ensures
        sub.valid_at() == sub.ref_time.unix_seconds() + s,
        sub.timed() <==> sub.ref_time.told(),
{
}

/// What a message is made of comes from its head, and surface and lead time from its product.
pub proof fn law_message_parts(head: Head, level: Option<Level>)
    ensures
        ({
            let sub = load::message_of(head, level);
            &&& sub.discipline == head.discipline
            &&& sub.category == head.category
            &&& sub.number == head.number
            &&& sub.ref_time == head.ref_time
            &&& level is None ==> !sub.surface_wind() && !sub.timed()
            &&& level matches Some(l) ==> sub.surface == l.surface && (sub.forecast is Some
                <==> l.forecast is Some)
        }),
{
}

/// The area holds what lies between its sides.
pub proof fn law_area_holds_what_lies_between(b: Grib2Bbox, lat: Real32, lon: Real32)
    ensures
        b.holds(lat, lon) <==> b.lat_min.at_most(lat) && lat.at_most(b.lat_max)
            && b.lon_min.at_most(lon) && lon.at_most(b.lon_max),
        grib2::wanted(None, (lat, lon)),
        grib2::wanted(Some(b), (lat, lon)) == b.holds(lat, lon),
{
}

/// The points wanted of two lists are those wanted of the one and then those of the other; a
/// single point is wanted or not.
pub proof fn law_wanted_points_keep_their_order(
    a: Seq<(Real32, Real32)>,
    p: (Real32, Real32),
    bbox: Option<Grib2Bbox>,
)
    ensures
        grib2::wanted_points(a.push(p), bbox) == (if bbox is None || bbox->Some_0.holds(p.0, p.1) {
            grib2::wanted_points(a, bbox).push(p)
        } else {
            grib2::wanted_points(a, bbox)
        }),
        grib2::wanted_points(Seq::empty(), bbox).len() == 0,
{
    assert(a.push(p).drop_last() =~= a);
}

/// The rows of a frame are the points that are kept and whose two components are numbers, in
/// the order of the points: the returned places of the points rise, every row stands for its
/// point, and no such point is left out.
pub proof fn law_rows_are_the_kept_points(
    u: Seq<Real32>,
    v: Seq<Real32>,
    cache: GridCache,
    bbox: Option<Grib2Bbox>,
    n: nat,
) -> (at: Seq<int>)
    requires
        n <= cache.latlons@.len(),
    ensures
        at.len() == grib2::rows_of(u, v, cache, bbox, n).len(),
        forall|i: int, j: int| 0 <= i < j < at.len() ==> at[i] < at[j],
        forall|m: int|
            0 <= m < at.len() ==> {
                let k = #[trigger] at[m];
                let row = grib2::rows_of(u, v, cache, bbox, n)[m];
                &&& 0 <= k < n
                &&& row.lat == cache.latlons@[k].0
                &&& row.lon == cache.latlons@[k].1
                &&& row.u == u[k]
                &&& row.v == v[k]
            },
        forall|k: int|
            0 <= k < n ==> (#[trigger] at.contains(k) <==> cache.keeps(bbox, cache.latlons@[k])
                && u[k].finite() && v[k].finite()),
    decreases n,
{
    if n == 0 {
        Seq::empty()
    } else {
        let before = law_rows_are_the_kept_points(u, v, cache, bbox, (n - 1) as nat);
        let last = n - 1;
        let takes = cache.keeps(bbox, cache.latlons@[last]) && u[last].finite() && v[last].finite();
        let at = if takes {
            before.push(last)
        } else {
            before
        };
        assert forall|k: int| 0 <= k < n implies (#[trigger] at.contains(k) <==> cache.keeps(
            bbox,
            cache.latlons@[k],
        ) && u[k].finite() && v[k].finite()) by {
            if k < last {
                assert(before.contains(k) <==> cache.keeps(bbox, cache.latlons@[k]) && u[k].finite()
                    && v[k].finite());
                if at.contains(k) {
                    let m = choose|m: int| 0 <= m < at.len() && at[m] == k;
                    assert(before[m] == k);
                }
                if before.contains(k) {
                    let m = choose|m: int| 0 <= m < before.len() && before[m] == k;
                    assert(at[m] == k);
                }
            } else {
                if takes {
                    assert(at[before.len() as int] == k);
                }
                if at.contains(k) && !takes {
                    let m = choose|m: int| 0 <= m < at.len() && at[m] == k;
                    assert(before[m] < last);
                }
            }
        }
        at
    }
}

/// A point is kept where it is wanted and, where only some lines are kept, both its latitude
/// and its longitude are among them.
pub proof fn law_kept_points(cache: GridCache, bbox: Option<Grib2Bbox>, lat: Real32, lon: Real32)
    ensures
        cache.keeps(bbox, (lat, lon)) <==> (bbox is None || bbox->Some_0.holds(lat, lon)) && (
        match cache.kept_axes {
            None => true,
            Some((some_lats, some_lons)) => some_lats@.contains(lat.bits) && some_lons@.contains(
                lon.bits,
            ),
        }),
{
}

/// Of several messages for one component at one time the last counts; without one there is
/// none.
pub proof fn law_last_message_counts(decoded: Seq<Decoded>, t: i64, is_u: bool, k: int)
    requires
        0 <= k < decoded.len(),
    ensures
        ({
            let n = grib2::last_of(decoded, t, is_u);
            &&& -1 <= n < decoded.len()
            &&& n >= 0 ==> decoded[n].t == t && decoded[n].is_u == is_u
            &&& decoded[k].t == t && decoded[k].is_u == is_u ==> k <= n
        }),
    decreases decoded.len(),
{
    if decoded.len() > 0 {
        let rest = decoded.drop_last();
        if k < rest.len() {
            law_last_message_counts(rest, t, is_u, k);
        } else if rest.len() > 0 {
            law_last_message_counts(rest, t, is_u, 0);
        }
    }
}

/// A frame is made of the last eastward and the last northward component told for its time;
/// where either is lacking it has no rows.
pub proof fn law_frame_is_of_both_components(
    decoded: Seq<Decoded>,
    t: i64,
    cache: GridCache,
    bbox: Option<Grib2Bbox>,
    u: int,
    v: int,
)
    requires
        0 <= u < decoded.len() && decoded[u].t == t && decoded[u].is_u,
        0 <= v < decoded.len() && decoded[v].t == t && !decoded[v].is_u,
        forall|k: int| u < k < decoded.len() ==> !((#[trigger] decoded[k]).t == t && decoded[k].is_u),
        forall|k: int| v < k < decoded.len() ==> !((#[trigger] decoded[k]).t == t && !decoded[k].is_u),
    ensures
        grib2::frame_rows(decoded, t, cache, bbox) == grib2::rows_of(
            decoded[u].values@,
            decoded[v].values@,
            cache,
            bbox,
            cache.latlons@.len(),
        ),
{
    law_last_message_counts(decoded, t, true, u);
    law_last_message_counts(decoded, t, false, v);
}

/// Without an eastward or without a northward component for a time there are no rows.
pub proof fn law_frame_needs_both_components(
    decoded: Seq<Decoded>,
    t: i64,
    cache: GridCache,
    bbox: Option<Grib2Bbox>,
    is_u: bool,
)
    requires
        forall|k: int|
            0 <= k < decoded.len() ==> !((#[trigger] decoded[k]).t == t && decoded[k].is_u == is_u),
    ensures
        grib2::frame_rows(decoded, t, cache, bbox).len() == 0,
{
    if decoded.len() > 0 {
        law_last_message_counts(decoded, t, is_u, 0);
    }
}

/// The steps between times are the differences of neighbours that are above zero, in order.
pub proof fn law_steps_between_times(times: Seq<i64>, next: i64)
    requires
        times.len() > 0,
        next - times.last() <= i64::MAX,
    ensures
        grib2::gaps(times.push(next)) == (if next > times.last() {
            grib2::gaps(times).push((next - times.last()) as i64)
        } else {
            grib2::gaps(times)
        }),
        times.len() == 1 ==> grib2::gaps(times).len() == 0,
{
    assert(times.push(next).drop_last() =~= times);
}

/// The time between frames is one of the steps between their times, and one in the middle:
/// no more than half of the steps are below it, and fewer than half are above it. Without
/// steps it is one second.
pub proof fn law_step_is_in_the_middle(times: Seq<i64>)
    ensures
        ({
            let g = grib2::gaps(times);
            let m = grib2::median_gap(times);
            let below = g.to_multiset().filter(|x: i64| x < m).len();
            let above = g.to_multiset().filter(|x: i64| x > m).len();
            &&& g.len() == 0 ==> m == 1
            &&& g.len() > 0 ==> g.contains(m) && 2 * below <= g.len() && 2 * above < g.len()
        }),
{
    let g = grib2::gaps(times);
    if g.len() > 0 {
        let leq = grib2::no_greater();
        assert(total_ordering(leq));
        g.lemma_sort_by_ensures(leq);
        let s = g.sort_by(leq);
        let i = g.len() as int / 2;
        let m = grib2::median_gap(times);
        assert(s.to_multiset() == g.to_multiset());
        s.to_multiset_ensures();
        g.to_multiset_ensures();
        assert(s.len() == g.len());
        assert(s.contains(m));
        assert(s.to_multiset().count(m) > 0);
        assert(g.contains(m));
        let low = |x: i64| x < m;
        let high = |x: i64| x > m;
        assert forall|k: int| i <= k < s.len() implies !low(#[trigger] s[k]) by {
            if k > i {
                assert(leq(s[i], s[k]));
            }
        }
        assert forall|k: int| 0 <= k <= i implies !high(#[trigger] s[k]) by {
            if k < i {
                assert(leq(s[k], s[i]));
            }
        }
        lemma_split_count(s, i, low, high);
        assert(g.to_multiset().filter(|x: i64| x < m) =~= s.to_multiset().filter(low));
        assert(g.to_multiset().filter(|x: i64| x > m) =~= s.to_multiset().filter(high));
    }
}

/// At most so many entries of a sequence are of a kind as stand where that kind can be.
proof fn lemma_split_count(
    s: Seq<i64>,
    i: int,
    low: spec_fn(i64) -> bool,
    high: spec_fn(i64) -> bool,
)
    requires
        0 <= i < s.len(),
        forall|k: int| i <= k < s.len() ==> !low(#[trigger] s[k]),
        forall|k: int| 0 <= k <= i ==> !high(#[trigger] s[k]),
    ensures
        s.to_multiset().filter(low).len() <= i,
        s.to_multiset().filter(high).len() <= s.len() - i - 1,
{
    lemma_none_of(s.skip(i), low);
    lemma_none_of(s.take(i + 1), high);
    lemma_parts(s, i, low);
    lemma_parts(s, i + 1, high);
}

/// A sequence without an entry of a kind holds none of it.
proof fn lemma_none_of(s: Seq<i64>, kind: spec_fn(i64) -> bool)
    requires
        forall|k: int| 0 <= k < s.len() ==> !kind(#[trigger] s[k]),
    ensures
        s.to_multiset().filter(kind) == Multiset::<i64>::empty(),
{
    s.to_multiset_ensures();
    assert forall|x: i64| s.to_multiset().filter(kind).count(x) == 0 by {
        if s.to_multiset().count(x) > 0 && kind(x) {
            assert(s.contains(x));
        }
    }
    assert(s.to_multiset().filter(kind) =~= Multiset::<i64>::empty());
}

/// Entries of a kind are those in front and those behind.
proof fn lemma_parts(s: Seq<i64>, i: int, kind: spec_fn(i64) -> bool)
    requires
        0 <= i <= s.len(),
    ensures
        s.to_multiset().filter(kind).len() == s.take(i).to_multiset().filter(kind).len() + s.skip(
            i,
        ).to_multiset().filter(kind).len(),
        s.take(i).to_multiset().filter(kind).len() <= i,
        s.skip(i).to_multiset().filter(kind).len() <= s.len() - i,
{
    vstd::seq_lib::lemma_multiset_commutative(s.take(i), s.skip(i));
    assert(s.take(i) + s.skip(i) =~= s);
    let (a, b) = (s.take(i).to_multiset(), s.skip(i).to_multiset());
    assert(a.add(b).filter(kind) =~= a.filter(kind).add(b.filter(kind)));
    s.take(i).to_multiset_ensures();
    s.skip(i).to_multiset_ensures();
    lemma_filter_is_part(a, kind);
    lemma_filter_is_part(b, kind);
}

/// What is kept of a multiset is no more than there was.
proof fn lemma_filter_is_part(a: Multiset<i64>, kind: spec_fn(i64) -> bool)
    ensures
        a.filter(kind).len() <= a.len(),
{
    let rest = a.sub(a.filter(kind));
    assert(rest.add(a.filter(kind)) =~= a);
}

/// Frames run from the first time to the last, where both have a date.
pub proof fn law_frames_run_from_first_to_last(times: Seq<i64>)
    requires
        times.len() > 0,
    ensures
        match grib2::time_range(times) {
            Some((start, end)) => {
                &&& start.seconds == times[0] && start.nanos == 0
                &&& end.seconds == times[times.len() - 1] && end.nanos == 0
                &&& start.wf() && end.wf()
            },
            None => !(calendar::UtcTime { seconds: times[0], nanos: 0 }).wf() || !(
            calendar::UtcTime { seconds: times[times.len() - 1], nanos: 0 }).wf(),
        },
{
}

/// Decoded values count where there is one for each point; their order stays.
pub proof fn law_usable_values(
    decoded: Seq<(i64, bool, Option<Vec<Real32>>)>,
    next: (i64, bool, Option<Vec<Real32>>),
    len: nat,
)
    ensures
        grib2::usable(decoded.push(next), len) == (match next.2 {
            Some(values) => if values@.len() == len {
                grib2::usable(decoded, len).push((next.0, next.1, values@))
            } else {
                grib2::usable(decoded, len)
            },
            None => grib2::usable(decoded, len),
        }),
        grib2::usable(Seq::empty(), len).len() == 0,
{
    assert(decoded.push(next).drop_last() =~= decoded);
}

/// A row stands where it stood, with the wind that its two components come to.
pub proof fn law_sampled_rows<W: Fn(Real32, Real32) -> WindSample>(
    rows: Seq<WindRow>,
    wind: W,
    k: int,
)
    requires
        0 <= k < rows.len(),
    ensures
        grib2::sampled(rows, wind).len() == rows.len(),
        grib2::sampled(rows, wind)[k].lon == rows[k].lon,
        grib2::sampled(rows, wind)[k].lat == rows[k].lat,
        grib2::sampled(rows, wind)[k].sample == given::gives2(wind, rows[k].u, rows[k].v),
{
}

/// Messages are gone through in turn. One that tells no wind, or none at a time, changes
/// nothing, and so does one before any grid is known that tells none itself. Every other adds
/// when it holds, whether it is the eastward component, and its values; the first such
/// message tells the grid for all.
pub proof fn law_messages_are_gone_through_in_turn(
    f: Seq<u8>,
    heads: Seq<Head>,
    n: int,
    stride: usize,
    bbox: Option<Grib2Bbox>,
)
    requires
        0 <= n < heads.len(),
    ensures
        ({
            let before = load::scanned(f, heads, n, stride, bbox);
            let after = load::scanned(f, heads, n + 1, stride, bbox);
            let sub = load::message_of(heads[n], load::level_of(f, n));
            let told = load::points_of(f, n, stride, bbox);
            if sub.surface_wind() && sub.timed() && (before.points is Some || told is Some) {
                &&& before.points is Some ==> after.points == before.points
                &&& before.points is None ==> after.points == told
                &&& after.decoded.len() == before.decoded.len() + 1
                &&& after.decoded.take(before.decoded.len() as int) == before.decoded
                &&& after.decoded[before.decoded.len() as int] == (
                    sub.valid_at() as i64,
                    heads[n].number == Some(2u8),
                    load::values_of(f, n),
                )
            } else {
                after == before
            }
        }),
        load::scanned(f, heads, 0, stride, bbox).points is None,
        load::scanned(f, heads, 0, stride, bbox).decoded.len() == 0,
{
    let before = load::scanned(f, heads, n, stride, bbox);
    let after = load::scanned(f, heads, n + 1, stride, bbox);
    if after.decoded.len() > before.decoded.len() {
        assert(after.decoded.take(before.decoded.len() as int) =~= before.decoded);
    }
}

/// A stride of nothing counts as one.
pub proof fn law_stride_is_at_least_one(stride: usize)
    ensures
        load::at_least_one(stride) >= 1,
        stride >= 1 ==> load::at_least_one(stride) == stride,
        load::at_least_one(0) == 1,
{
}

/// Of a grid of which each `stride`-th line is kept, a wanted point is kept where its latitude and
/// its longitude both stand at such a place among those of the wanted points.
pub proof fn law_each_nth_line_is_kept(
    c: GridCache,
    points: Seq<(Real32, Real32)>,
    stride: usize,
    bbox: Option<Grib2Bbox>,
    lat: Real32,
    lon: Real32,
    i: int,
    j: int,
)
    requires
        stride > 1,
        load::cached(c, points, stride, bbox),
        grib2::placed(points, bbox),
        ({
            let wanted = grib2::wanted_points(points, bbox);
            let lats = axes::axis_of(Seq::new(wanted.len(), |k: int| wanted[k].0));
            let lons = axes::axis_of(Seq::new(wanted.len(), |k: int| wanted[k].1));
            &&& 0 <= i < lats.len() && lats[i] == lat
            &&& 0 <= j < lons.len() && lons[j] == lon
        }),
    ensures
        c.keeps(bbox, (lat, lon)) <==> (bbox is None || bbox->Some_0.holds(lat, lon)) && i % (
        stride as int) == 0 && j % (stride as int) == 0,
        c.latlons@ == points,
{
    let wanted = grib2::wanted_points(points, bbox);
    let all_lats = grib2::lats(wanted);
    let all_lons = grib2::lons(wanted);
    assert(all_lats =~= Seq::new(wanted.len(), |k: int| wanted[k].0));
    assert(all_lons =~= Seq::new(wanted.len(), |k: int| wanted[k].1));
    lemma_wanted_are_placed(points, bbox);
    axes::lemma_axis(all_lats);
    axes::lemma_axis(all_lons);
    axes::law_each_nth_is_kept(axes::axis_of(all_lats), stride as int, i);
    axes::law_each_nth_is_kept(axes::axis_of(all_lons), stride as int, j);
}

/// Wanted points stand at numbers.
proof fn lemma_wanted_are_placed(points: Seq<(Real32, Real32)>, bbox: Option<Grib2Bbox>)
    requires
        grib2::placed(points, bbox),
    ensures
        forall|k: int|
            0 <= k < grib2::wanted_points(points, bbox).len() ==> !(#[trigger] grib2::wanted_points(
                points,
                bbox,
            )[k]).0.nan() && !grib2::wanted_points(points, bbox)[k].1.nan(),
    decreases points.len(),
{
    if points.len() > 0 {
        let front = points.drop_last();
        assert forall|k: int| 0 <= k < front.len() && grib2::wanted(bbox, #[trigger] front[k]) implies
            !front[k].0.nan() && !front[k].1.nan() by {
            assert(points[k] == front[k]);
        }
        lemma_wanted_are_placed(front, bbox);
        assert(points[points.len() - 1] == points.last());
        let (all, rest) = (grib2::wanted_points(points, bbox), grib2::wanted_points(front, bbox));
        assert forall|k: int| 0 <= k < all.len() implies !(#[trigger] all[k]).0.nan()
            && !all[k].1.nan() by {
            if k < rest.len() {
                assert(all[k] == rest[k]);
            } else {
                assert(all[k] == points.last());
            }
        }
    }
}

/// Where every line is kept, all wanted points are.
pub proof fn law_every_line_is_kept(
    c: GridCache,
    points: Seq<(Real32, Real32)>,
    bbox: Option<Grib2Bbox>,
    lat: Real32,
    lon: Real32,
)
    requires
        load::cached(c, points, 1, bbox),
    ensures
        c.keeps(bbox, (lat, lon)) <==> bbox is None || bbox->Some_0.holds(lat, lon),
{
}

/// A time counts as one that is told where some message tells it.
pub proof fn law_frames_are_at_told_times(
    l: LoadedFrames,
    kept: Seq<Decoded>,
    cache: GridCache,
    bbox: Option<Grib2Bbox>,
    k: int,
    t: i64,
)
    requires
        grib2::frames_of(l, kept, cache, bbox),
        0 <= k < l.times@.len(),
    ensures
        l.frames@[k]@ == grib2::frame_rows(kept, l.times@[k], cache, bbox),
        l.frames@[k]@.len() > 0,
        forall|i: int, j: int| 0 <= i < j < l.times@.len() ==> l.times@[i] < l.times@[j],
        l.times@.contains(t) <==> grib2::frame_rows(kept, t, cache, bbox).len() > 0,
        exists|m: int| 0 <= m < kept.len() && (#[trigger] kept[m]).t == l.times@[k],
{
    if l.times@.contains(t) {
        let i = choose|i: int| 0 <= i < l.times@.len() && l.times@[i] == t;
        assert(l.frames@[i]@.len() > 0);
    }
    let u = grib2::last_of(kept, l.times@[k], true);
    assert(l.frames@[k]@.len() > 0);
    if kept.len() > 0 {
        law_last_message_counts(kept, l.times@[k], true, 0);
        assert(kept[u].t == l.times@[k]);
    }
}

} // verus!
