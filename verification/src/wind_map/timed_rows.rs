//! Rows over time, and their grouping into frames.
use crate::axes;
use crate::number::Real32;
use crate::wind_map::{WeatherRow, WindSample};
use vstd::prelude::*;

verus! {

/// The wind at a place and a time.
#[derive(Clone, Copy, Debug, PartialEq, Eq, Structural)]
pub struct TimedWeatherRow {
    pub lon: Real32,
    pub lat: Real32,
    pub t_seconds: Real32,
    pub sample: WindSample,
}

impl TimedWeatherRow {
    /// The row without its time.
    pub open spec fn row(self) -> WeatherRow {
        WeatherRow { lon: self.lon, lat: self.lat, sample: self.sample }
    }
}

/// The times of rows.
pub open spec fn times(rows: Seq<TimedWeatherRow>) -> Seq<Real32> {
    Seq::new(rows.len(), |k: int| rows[k].t_seconds)
}

/// The rows of a time, in their order and without it.
pub open spec fn rows_at(rows: Seq<TimedWeatherRow>, t: Real32) -> Seq<WeatherRow>
    decreases rows.len(),
{
    if rows.len() == 0 {
        Seq::empty()
    } else {
        let rest = rows_at(rows.drop_last(), t);
        if rows.last().t_seconds.equals(t) {
            rest.push(rows.last().row())
        } else {
            rest
        }
    }
}

/// The frames of rows: those of each time, in rising order of time.
pub open spec fn frames_of(rows: Seq<TimedWeatherRow>) -> Seq<Seq<WeatherRow>> {
    let ts = axes::axis_of(times(rows));
    Seq::new(ts.len(), |k: int| rows_at(rows, ts[k]))
}

/// What lists of rows hold.
pub open spec fn held(frames: Seq<Vec<WeatherRow>>) -> Seq<Seq<WeatherRow>> {
    Seq::new(frames.len(), |k: int| frames[k]@)
}

/// The times of rows, each once, in rising order.
fn distinct_times(rows: &Vec<TimedWeatherRow>) -> (ts: Vec<Real32>)
    requires
        axes::all_numbers(times(rows@)),
    ensures
        axes::is_axis(ts@, times(rows@)),
        ts@ == axes::axis_of(times(rows@)),
{
    let mut all: Vec<Real32> = Vec::new();
    let mut k: usize = 0;
    while k < rows.len()
        invariant
            k <= rows@.len(),
            all@ == times(rows@).take(k as int),
        decreases rows@.len() - k,
    {
        all.push(rows[k].t_seconds);
        assert(all@ =~= times(rows@).take(k + 1));
        k += 1;
    }
    assert(times(rows@).take(k as int) =~= times(rows@));
    axes::distinct(&all)
}

/// Groups rows into the frames of their times, in rising order of time. The times
/// come with the frames.
pub fn group_by_time(rows: &Vec<TimedWeatherRow>) -> (r: (Vec<Real32>, Vec<Vec<WeatherRow>>))
    requires
        axes::all_numbers(times(rows@)),
    ensures
        r.0@ == axes::axis_of(times(rows@)),
        held(r.1@) == frames_of(rows@),
        rows@.len() > 0 ==> r.0@.len() > 0,
        axes::rising(r.0@),
{
    let ts: Vec<Real32> = distinct_times(rows);
    let mut frames: Vec<Vec<WeatherRow>> = Vec::new();
    while frames.len() < ts.len()
        invariant
            frames@.len() <= ts@.len(),
            forall|i: int| 0 <= i < frames@.len() ==> (#[trigger] frames@[i])@ == Seq::<WeatherRow>::empty(),
        decreases ts@.len() - frames@.len(),
    {
        frames.push(Vec::new());
    }
    proof {
        assert forall|i: int| 0 <= i < ts@.len() implies !(#[trigger] ts@[i]).nan() by {
            lemma_axis_number(ts@, times(rows@), i);
        }
        assert forall|i: int| 0 <= i < ts@.len() implies (#[trigger] frames@[i])@ == rows_at(
            rows@.take(0),
            ts@[i],
        ) by {
            assert(frames@[i]@ =~= rows_at(rows@.take(0), ts@[i]));
        }
    }
    let mut k: usize = 0;
    while k < rows.len()
        invariant
            k <= rows@.len(),
            axes::all_numbers(times(rows@)),
            axes::is_axis(ts@, times(rows@)),
            axes::all_numbers(ts@),
            frames@.len() == ts@.len(),
            forall|i: int| 0 <= i < ts@.len() ==> (#[trigger] frames@[i])@ == rows_at(
                rows@.take(k as int),
                ts@[i],
            ),
        decreases rows@.len() - k,
    {
        let row: TimedWeatherRow = rows[k];
        proof {
            assert(times(rows@)[k as int] == row.t_seconds);
            assert(axes::on_axis(ts@, times(rows@)[k as int]));
        }
        let p: usize = axes::place_for(&ts, row.t_seconds);
        let ghost before = frames@;
        proof {
            let m = choose|m: int| 0 <= m < ts@.len() && (#[trigger] ts@[m]).equals(row.t_seconds);
            if m < p {
                assert(ts@[m].below(row.t_seconds));
            } else if m > p {
                assert(ts@[p as int].below(ts@[m]));
            }
            assert(m == p);
        }
        frames[p].push(WeatherRow { lon: row.lon, lat: row.lat, sample: row.sample });
        proof {
            let more = rows@.take(k + 1);
            assert(more.drop_last() =~= rows@.take(k as int));
            assert(more.last() == row);
            assert forall|i: int| 0 <= i < ts@.len() implies (#[trigger] frames@[i])@ == rows_at(more, ts@[i])
                by {
                assert(before[i]@ == rows_at(rows@.take(k as int), ts@[i]));
                if i < p {
                    assert(ts@[i].below(ts@[p as int]));
                } else if i > p {
                    assert(ts@[p as int].below(ts@[i]));
                }
            }
        }
        k += 1;
    }
    proof {
        assert(rows@.take(k as int) =~= rows@);
        assert(held(frames@) =~= frames_of(rows@));
        if rows@.len() > 0 {
            assert(axes::on_axis(ts@, times(rows@)[0]));
        }
    }
    (ts, frames)
}

/// A value of an axis is a number where all values are.
proof fn lemma_axis_number(a: Seq<Real32>, s: Seq<Real32>, i: int)
    requires
        axes::is_axis(a, s),
        axes::all_numbers(s),
        0 <= i < a.len(),
    ensures
        !a[i].nan(),
{
    assert(axes::leads(s, a[i]));
    let j = choose|j: int| axes::first_at(s, a[i], j);
    assert(!s[j].nan());
}

/// Rows with a time.
pub open spec fn stamped(rows: Seq<WeatherRow>, t: Real32) -> Seq<TimedWeatherRow> {
    Seq::new(
        rows.len(),
        |k: int|
            TimedWeatherRow {
                lon: rows[k].lon,
                lat: rows[k].lat,
                t_seconds: t,
                sample: rows[k].sample,
            },
    )
}

/// The rows of frames one after another, those of frame `k` at time `ts[k]`.
pub open spec fn laid_out(frames: Seq<Seq<WeatherRow>>, ts: Seq<Real32>) -> Seq<TimedWeatherRow>
    decreases frames.len(),
{
    if frames.len() == 0 {
        Seq::empty()
    } else {
        laid_out(frames.drop_last(), ts) + stamped(frames.last(), ts[frames.len() - 1])
    }
}

/// Appends rows with a time.
pub(crate) fn push_stamped(out: &mut Vec<TimedWeatherRow>, rows: &Vec<WeatherRow>, t: Real32)
    ensures
        final(out)@ == old(out)@ + stamped(rows@, t),
{
    let ghost before = out@;
    let mut k: usize = 0;
    while k < rows.len()
        invariant
            k <= rows@.len(),
            out@ == before + stamped(rows@, t).take(k as int),
        decreases rows@.len() - k,
    {
        let row: WeatherRow = rows[k];
        out.push(
            TimedWeatherRow { lon: row.lon, lat: row.lat, t_seconds: t, sample: row.sample },
        );
        proof {
            assert(stamped(rows@, t).take(k + 1) =~= stamped(rows@, t).take(k as int).push(
                stamped(rows@, t)[k as int],
            ));
        }
        k += 1;
    }
    assert(stamped(rows@, t).take(k as int) =~= stamped(rows@, t));
}

/// Rows with a time put behind others are the last of those at that time, and add
/// nothing to other times.
proof fn lemma_rows_behind(s: Seq<TimedWeatherRow>, rows: Seq<WeatherRow>, t: Real32, x: Real32)
    requires
        !t.nan(),
        !x.nan(),
    ensures
        rows_at(s + stamped(rows, t), x) == rows_at(s, x) + (if t.equals(x) {
            rows
        } else {
            Seq::empty()
        }),
    decreases rows.len(),
{
    let all = s + stamped(rows, t);
    if rows.len() == 0 {
        assert(all =~= s);
        assert(rows_at(s, x) + Seq::<WeatherRow>::empty() =~= rows_at(s, x));
        assert(rows =~= Seq::<WeatherRow>::empty());
    } else {
        lemma_rows_behind(s, rows.drop_last(), t, x);
        assert(all.drop_last() =~= s + stamped(rows.drop_last(), t));
        assert(all.last() == stamped(rows, t).last());
        assert(all.last().row() == rows.last());
        if t.equals(x) {
            assert((rows_at(s, x) + rows.drop_last()).push(rows.last()) =~= rows_at(s, x) + rows);
        }
    }
}

/// What frames laid out hold at a time of theirs, and at a later time.
proof fn lemma_laid_out_at(frames: Seq<Seq<WeatherRow>>, ts: Seq<Real32>, k: int)
    requires
        frames.len() <= ts.len(),
        axes::rising(ts),
        axes::all_numbers(ts),
        0 <= k < ts.len(),
    ensures
        rows_at(laid_out(frames, ts), ts[k]) == (if k < frames.len() {
            frames[k]
        } else {
            Seq::empty()
        }),
    decreases frames.len(),
{
    if frames.len() > 0 {
        let n = frames.len() - 1;
        lemma_laid_out_at(frames.drop_last(), ts, k);
        lemma_rows_behind(laid_out(frames.drop_last(), ts), frames.last(), ts[n], ts[k]);
        if k < n {
            assert(ts[k].below(ts[n]));
            assert(frames[k] + Seq::<WeatherRow>::empty() =~= frames[k]);
        } else if k > n {
            assert(ts[n].below(ts[k]));
            assert(Seq::<WeatherRow>::empty() + Seq::<WeatherRow>::empty() =~= Seq::<WeatherRow>::empty());
        } else {
            assert(Seq::<WeatherRow>::empty() + frames[k] =~= frames[k]);
        }
    }
}

/// Every row of frames laid out bears the time of a frame, and each frame's time
/// is borne.
proof fn lemma_laid_out_times(frames: Seq<Seq<WeatherRow>>, ts: Seq<Real32>)
    requires
        frames.len() <= ts.len(),
        forall|k: int| 0 <= k < frames.len() ==> (#[trigger] frames[k]).len() > 0,
    ensures
        forall|j: int|
            0 <= j < laid_out(frames, ts).len() ==> ts.take(frames.len() as int).contains(
                (#[trigger] laid_out(frames, ts)[j]).t_seconds,
            ),
        forall|k: int| 0 <= k < frames.len() ==> times(laid_out(frames, ts)).contains(#[trigger] ts[k]),
    decreases frames.len(),
{
    if frames.len() > 0 {
        let n = frames.len() - 1;
        let front = laid_out(frames.drop_last(), ts);
        let back = stamped(frames.last(), ts[n]);
        let all = laid_out(frames, ts);
        lemma_laid_out_times(frames.drop_last(), ts);
        assert forall|j: int| 0 <= j < all.len() implies ts.take(frames.len() as int).contains(
            (#[trigger] all[j]).t_seconds,
        ) by {
            if j < front.len() {
                assert(all[j] == front[j]);
                let m = choose|m: int| 0 <= m < n && ts.take(n)[m] == front[j].t_seconds;
                assert(ts.take(frames.len() as int)[m] == front[j].t_seconds);
            } else {
                assert(all[j] == back[j - front.len()]);
                assert(ts.take(frames.len() as int)[n] == all[j].t_seconds);
            }
        }
        assert forall|k: int| 0 <= k < frames.len() implies times(all).contains(#[trigger] ts[k]) by {
            if k < n {
                assert(times(front).contains(ts[k]));
                let m = choose|m: int| 0 <= m < front.len() && times(front)[m] == ts[k];
                assert(times(all)[m] == ts[k]);
            } else {
                assert(frames[n].len() > 0);
                assert(times(all)[front.len() as int] == ts[k]);
            }
        }
    }
}

/// Frames at rising times, none of them empty, come back out of their rows.
pub proof fn law_frames_come_back(frames: Seq<Seq<WeatherRow>>, ts: Seq<Real32>)
    requires
        frames.len() == ts.len(),
        axes::rising(ts),
        axes::all_numbers(ts),
        forall|k: int| 0 <= k < frames.len() ==> (#[trigger] frames[k]).len() > 0,
    ensures
        axes::axis_of(times(laid_out(frames, ts))) == ts,
        frames_of(laid_out(frames, ts)) == frames,
{
    let all = laid_out(frames, ts);
    lemma_laid_out_times(frames, ts);
    assert(ts.take(frames.len() as int) =~= ts);
    assert forall|k: int| 0 <= k < ts.len() implies axes::leads(times(all), #[trigger] ts[k]) by {
        assert(times(all).contains(ts[k]));
        let j = choose|j: int| 0 <= j < all.len() && times(all)[j] == ts[k];
        lemma_first(times(all), ts, ts[k], j);
    }
    assert forall|j: int| 0 <= j < times(all).len() implies axes::on_axis(ts, #[trigger] times(all)[j]) by {
        assert(ts.contains(all[j].t_seconds));
        let m = choose|m: int| 0 <= m < ts.len() && ts[m] == all[j].t_seconds;
        assert(ts[m].equals(times(all)[j]));
    }
    assert(axes::is_axis(ts, times(all)));
    axes::law_axis_is_unique(ts, times(all));
    assert forall|k: int| 0 <= k < frames.len() implies #[trigger] frames_of(all)[k] == frames[k] by {
        lemma_laid_out_at(frames, ts, k);
    }
    assert(frames_of(all) =~= frames);
}

/// Among values out of a rising sequence, one that occurs has a first place.
proof fn lemma_first(s: Seq<Real32>, ts: Seq<Real32>, x: Real32, j: int)
    requires
        axes::rising(ts),
        axes::all_numbers(ts),
        0 <= j < s.len(),
        s[j] == x,
        ts.contains(x),
        forall|i: int| 0 <= i < s.len() ==> ts.contains(#[trigger] s[i]),
    ensures
        axes::leads(s, x),
    decreases j,
{
    if exists|i: int| 0 <= i < j && (#[trigger] s[i]).equals(x) {
        let i = choose|i: int| 0 <= i < j && (#[trigger] s[i]).equals(x);
        assert(ts.contains(s[i]));
        let m = choose|m: int| 0 <= m < ts.len() && ts[m] == s[i];
        let n = choose|n: int| 0 <= n < ts.len() && ts[n] == x;
        if m < n {
            assert(ts[m].below(ts[n]));
        } else if n < m {
            assert(ts[n].below(ts[m]));
        }
        lemma_first(s, ts, x, i);
    } else {
        assert(axes::first_at(s, x, j));
    }
}

} // verus!
