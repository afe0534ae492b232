//! What holds of the winds that a field tells, and of the fields that a time falls between.
use crate::axes;
use crate::given;
use crate::number::Real32;
use crate::wind_map;
use crate::wind_map::baked;
use crate::wind_map::lattice;
use crate::wind_map::layout;
use crate::wind_map::layout::GridLayout;
use crate::wind_map::timed_rows;
use crate::wind_map::timed_rows::TimedWeatherRow;
use crate::wind_map::{Blend, CellSpan, CyclePlace, WeatherRow, WindMap, WindSample};
use vstd::prelude::*;

verus! {

/// How far apart two numbers are.
pub open spec fn apart(a: int, b: int) -> int {
    if a <= b {
        b - a
    } else {
        a - b
    }
}

/// Whether `r` is the nearest to `v` of the numbers from 0 up to and without `n`.
pub open spec fn nearest_line(v: int, n: int, r: int) -> bool {
    &&& 0 <= r < n
    &&& forall|m: int| 0 <= m < n ==> apart(v, r) <= #[trigger] apart(v, m)
}

/// The row that a grid `ny` rows high stores for column `i` and row `j`, with its distance.
pub open spec fn told<D: Fn(Real32, Real32) -> Real32>(
    rows: Seq<WeatherRow>,
    ny: int,
    dist_sq: D,
    i: int,
    j: int,
) -> (Real32, WindSample) {
    let row = rows[i * ny + j];
    (given::gives2(dist_sq, row.lon, row.lat), row.sample)
}

/// A number moved onto an axis is the nearest there.
proof fn lemma_moved_is_nearest(v: int, n: int, r: int)
    requires
        nearest_line(v, n, r),
    ensures
        wind_map::clamped(v, n) == r,
{
    let c = wind_map::clamped(v, n);
    assert(apart(v, r) <= apart(v, c));
}

/// The wind on a grid is told by the rows of the two columns and the two rows next to the
/// place, each pair of a column and a row counting once: all four with their distances where
/// the place lies on none of them, else one that it lies on.
pub proof fn law_wind_is_told_by_four_corners<D: Fn(Real32, Real32) -> Real32>(
    map: WindMap,
    l: GridLayout,
    span: CellSpan,
    dist_sq: D,
    b: Blend,
    i: (int, int),
    j: (int, int),
)
    requires
        map.wf(),
        map.layout == Some(l),
        wind_map::blends_at(b, span.corners(l), map.rows@, dist_sq),
        nearest_line(span.i_lo as int, l.nx as int, i.0),
        nearest_line(span.i_hi as int, l.nx as int, i.1),
        nearest_line(span.j_lo as int, l.ny as int, j.0),
        nearest_line(span.j_hi as int, l.ny as int, j.1),
    ensures
        ({
            let ny = l.ny as int;
            let sw = told(map.rows@, ny, dist_sq, i.0, j.0);
            let se = told(map.rows@, ny, dist_sq, i.1, j.0);
            let nw = told(map.rows@, ny, dist_sq, i.0, j.1);
            let ne = told(map.rows@, ny, dist_sq, i.1, j.1);
            let zero = Real32 { bits: 0 };
            match b {
                Blend::Weighted(list) => {
                    &&& list@.to_multiset() == seq![sw, se, nw, ne].to_multiset()
                    &&& !sw.0.equals(zero) && !se.0.equals(zero) && !nw.0.equals(zero)
                        && !ne.0.equals(zero)
                },
                Blend::Exact(s) => {
                    ||| s == sw.1 && sw.0.equals(zero)
                    ||| s == se.1 && se.0.equals(zero)
                    ||| s == nw.1 && nw.0.equals(zero)
                    ||| s == ne.1 && ne.0.equals(zero)
                },
            }
        }),
{
    lemma_moved_is_nearest(span.i_lo as int, l.nx as int, i.0);
    lemma_moved_is_nearest(span.i_hi as int, l.nx as int, i.1);
    lemma_moved_is_nearest(span.j_lo as int, l.ny as int, j.0);
    lemma_moved_is_nearest(span.j_hi as int, l.ny as int, j.1);
    let at = span.corners(l);
    let near = choose|near: Seq<(Real32, usize)>|
        {
            &&& #[trigger] wind_map::measured(near, at, map.rows@, dist_sq)
            &&& wind_map::blended(b, near, map.rows@)
        };
    assert(near.len() == 4);
    assert(near[0].1 == at[0] && near[1].1 == at[1] && near[2].1 == at[2] && near[3].1 == at[3]);
    match b {
        Blend::Weighted(list) => {
            assert(list@ =~= seq![
                told(map.rows@, l.ny as int, dist_sq, i.0, j.0),
                told(map.rows@, l.ny as int, dist_sq, i.1, j.0),
                told(map.rows@, l.ny as int, dist_sq, i.0, j.1),
                told(map.rows@, l.ny as int, dist_sq, i.1, j.1),
            ]);
        },
        Blend::Exact(s) => {},
    }
}

/// Where the rows are scattered, the wind is told by as many of them as are asked for, four
/// or all there are: all with their distances, or one that the place lies on.
pub proof fn law_wind_is_told_by_four_nearest<N: Fn(usize) -> Vec<(Real32, usize)>>(
    map: WindMap,
    nearest: N,
    b: Blend,
)
    requires
        wind_map::blends_near(
            b,
            wind_map::nearest_count(map.rows@.len()) as usize,
            map.rows@,
            nearest,
        ),
    ensures
        exists|n: usize, near: Vec<(Real32, usize)>|
            {
                &&& #[trigger] call_ensures(nearest, (n,), near)
                &&& n <= 4 && n <= map.rows@.len() && (n == 4 || n == map.rows@.len())
                &&& match b {
                    Blend::Weighted(list) => list@.len() == near@.len() && forall|k: int|
                        0 <= k < near@.len() ==> (#[trigger] list@[k]) == (
                            near@[k].0,
                            map.rows@[near@[k].1 as int].sample,
                        ) && !near@[k].0.equals(Real32 { bits: 0 }),
                    Blend::Exact(s) => exists|k: int|
                        0 <= k < near@.len() && (#[trigger] near@[k]).0.equals(Real32 { bits: 0 })
                            && s == map.rows@[near@[k].1 as int].sample,
                }
            },
{
    let n = wind_map::nearest_count(map.rows@.len()) as usize;
    assert(map.rows@.len() == map.rows.len());
    let near = choose|near: Vec<(Real32, usize)>|
        {
            &&& #[trigger] call_ensures(nearest, (n,), near)
            &&& wind_map::blended(b, near@, map.rows@)
        };
    match b {
        Blend::Weighted(list) => {
            assert forall|k: int| 0 <= k < near@.len() implies (#[trigger] list@[k]) == (
                near@[k].0,
                map.rows@[near@[k].1 as int].sample,
            ) && !near@[k].0.equals(Real32 { bits: 0 }) by {
                assert(!wind_map::is_zero(near@[k].0));
            }
        },
        Blend::Exact(s) => {
            let k = choose|k: int|
                {
                    &&& #[trigger] wind_map::first_hit(near@, k)
                    &&& s == map.rows@[near@[k].1 as int].sample
                };
            assert(near@[k].0.equals(Real32 { bits: 0 }));
        },
    }
    assert(call_ensures(nearest, (n,), near));
}

/// A row of a grid is in a circle just if its column and its row are among those looked at
/// and the circle holds it. Places rise.
pub proof fn law_circle_holds_cells_of_the_span<
    W: Fn(Real32, Real32) -> bool,
    S: Fn() -> Vec<usize>,
>(
    map: WindMap,
    l: GridLayout,
    span: CellSpan,
    within: W,
    scattered: S,
    out: Vec<usize>,
    i: (int, int),
    j: (int, int),
    c: usize,
)
    requires
        map.wf(),
        map.layout == Some(l),
        map.circles(out, span, within, scattered),
        nearest_line(span.i_lo as int, l.nx as int, i.0),
        nearest_line(span.i_hi as int, l.nx as int, i.1),
        nearest_line(span.j_lo as int, l.ny as int, j.0),
        nearest_line(span.j_hi as int, l.ny as int, j.1),
        c < map.rows@.len(),
    ensures
        out@.contains(c) <==> {
            &&& i.0 <= c as int / l.ny as int <= i.1
            &&& j.0 <= c as int % l.ny as int <= j.1
            &&& given::gives2(within, map.rows@[c as int].lon, map.rows@[c as int].lat)
        },
        forall|k: int| 0 <= k < out@.len() ==> #[trigger] out@[k] < map.rows@.len(),
        forall|p: int, q: int| 0 <= p < q < out@.len() ==> out@[p] < out@[q],
{
    lemma_moved_is_nearest(span.i_lo as int, l.nx as int, i.0);
    lemma_moved_is_nearest(span.i_hi as int, l.nx as int, i.1);
    lemma_moved_is_nearest(span.j_lo as int, l.ny as int, j.0);
    lemma_moved_is_nearest(span.j_hi as int, l.ny as int, j.1);
    let ny = l.ny as int;
    vstd::arithmetic::div_mod::lemma_fundamental_div_mod(c as int, ny);
    assert(ny * (c as int / ny) == (c as int / ny) * ny) by (nonlinear_arith);
    assert(c as int == wind_map::place(l, c as int / ny, c as int % ny));
    if span.spans(l, c as int) {
        let (a, b) = choose|a: int, b: int|
            i.0 <= a <= i.1 && j.0 <= b <= j.1 && c == #[trigger] wind_map::place(l, a, b);
        vstd::arithmetic::div_mod::lemma_fundamental_div_mod_converse(c as int, ny, a, b);
    }
    assert forall|k: int| 0 <= k < out@.len() implies #[trigger] out@[k] < map.rows@.len() by {
        assert(out@.contains(out@[k]));
    }
}

/// A time so many whole steps from the first field falls between the field of that number
/// and the next, or at the last field where there are no more. After the last field it falls
/// between the last and the first.
pub proof fn law_time_falls_between_its_fields(n: int, place: CyclePlace)
    requires
        n >= 1,
    ensures
        match place {
            CyclePlace::Data { steps } => {
                &&& steps + 1 < n ==> wind_map::bracketing(n, place) == (steps as int, steps + 1)
                &&& steps + 1 >= n ==> wind_map::bracketing(n, place) == (n - 1, n - 1)
            },
            CyclePlace::Tail => wind_map::bracketing(n, place) == (n - 1, 0int),
        },
{
}

/// Rows with the wind told for their places stand where they stood.
pub proof fn law_resampled_rows_stay<W: Fn(Real32, Real32) -> WindSample>(
    rows: Seq<WeatherRow>,
    wind_at: W,
    k: int,
)
    requires
        0 <= k < rows.len(),
    ensures
        wind_map::resampled(rows, wind_at).len() == rows.len(),
        wind_map::resampled(rows, wind_at)[k].lon == rows[k].lon,
        wind_map::resampled(rows, wind_at)[k].lat == rows[k].lat,
        wind_map::resampled(rows, wind_at)[k].sample == given::gives2(
            wind_at,
            rows[k].lon,
            rows[k].lat,
        ),
{
}

/// A map has every row it was made of, and no other.
pub proof fn law_map_keeps_its_rows<
    M: Fn(Real32, Real32) -> Real32,
    E: Fn(Real32, Real32, Real32) -> bool,
    C: Fn(Real32, Real32, Real32) -> Option<usize>,
>(map: WindMap, rows: Seq<WeatherRow>, minus: M, even: E, cell: C, r: WeatherRow)
    requires
        map.wf(),
        map.indexes(rows, minus, even, cell),
    ensures
        map.rows@.len() == rows.len(),
        map.rows@.contains(r) <==> rows.contains(r),
{
    if map.layout is Some {
        let l = map.layout->0;
        if rows.contains(r) {
            let k = choose|k: int| 0 <= k < rows.len() && rows[k] == r;
            assert(map.rows@[wind_map::layout::slot_of(cell, l, rows[k])] == r);
        }
        if map.rows@.contains(r) {
            let s = choose|s: int| 0 <= s < map.rows@.len() && map.rows@[s] == r;
            assert(wind_map::layout::taken(cell, l, rows, rows.len() as int, s));
            let k = choose|k: int|
                0 <= k < rows.len() && wind_map::layout::slot_of(cell, l, #[trigger] rows[k]) == s;
            assert(map.rows@[wind_map::layout::slot_of(cell, l, rows[k])] == rows[k]);
        }
    }
}

/// A grid found among rows begins at the lowest longitude and latitude, its steps are those
/// from there to the next, and it has a column for each longitude and a row for each
/// latitude. Every neighbouring pair is as far apart, and each point has a cell.
pub proof fn law_grid_is_told_by_its_axes<
    M: Fn(Real32, Real32) -> Real32,
    E: Fn(Real32, Real32, Real32) -> bool,
    C: Fn(Real32, Real32, Real32) -> Option<usize>,
>(minus: M, even: E, cell: C, rows: Seq<WeatherRow>, l: GridLayout, k: int)
    requires
        layout::layout_of(minus, even, cell, rows) == Some(l),
        rows.len() <= usize::MAX,
    ensures
        ({
            let xs = axes::axis_of(Seq::new(rows.len(), |n: int| rows[n].lon));
            let ys = axes::axis_of(Seq::new(rows.len(), |n: int| rows[n].lat));
            &&& l.nx == xs.len() && l.ny == ys.len()
            &&& l.origin_x == xs[0] && l.origin_y == ys[0]
            &&& l.step_x == given::gives2(minus, xs[1], xs[0])
            &&& l.step_y == given::gives2(minus, ys[1], ys[0])
            &&& l.step_x.finite() && (Real32 { bits: 0 }).below(l.step_x)
            &&& l.step_y.finite() && (Real32 { bits: 0 }).below(l.step_y)
            &&& 0 <= k < xs.len() - 1 ==> given::gives3(even, xs[k], xs[k + 1], l.step_x)
            &&& 0 <= k < ys.len() - 1 ==> given::gives3(even, ys[k], ys[k + 1], l.step_y)
            &&& 0 <= k < rows.len() ==> {
                let i = given::gives3(cell, rows[k].lon, l.origin_x, l.step_x);
                let j = given::gives3(cell, rows[k].lat, l.origin_y, l.step_y);
                &&& i is Some && i->Some_0 < l.nx
                &&& j is Some && j->Some_0 < l.ny
            }
        }),
{
    let xs = axes::axis_of(layout::lons(rows));
    let ys = axes::axis_of(layout::lats(rows));
    assert(layout::lons(rows) =~= Seq::new(rows.len(), |n: int| rows[n].lon));
    assert(layout::lats(rows) =~= Seq::new(rows.len(), |n: int| rows[n].lat));
    let a = xs.len() as int;
    let b = ys.len() as int;
    assert(a <= a * b && b <= a * b) by (nonlinear_arith)
        requires
            a >= 2,
            b >= 2,
    ;
    if 0 <= k < xs.len() - 1 {
        assert(layout::even_at(even, xs, l.step_x, k));
    }
    if 0 <= k < ys.len() - 1 {
        assert(layout::even_at(even, ys, l.step_y, k));
    }
    if 0 <= k < rows.len() {
        assert(layout::cell_of(cell, l, rows[k]) is Some);
    }
}

/// A row goes to the column that its longitude falls into and the row that its latitude falls
/// into, columns being stored one behind another.
pub proof fn law_row_goes_to_its_cell<
    M: Fn(Real32, Real32) -> Real32,
    E: Fn(Real32, Real32, Real32) -> bool,
    C: Fn(Real32, Real32, Real32) -> Option<usize>,
>(
    map: WindMap,
    rows: Seq<WeatherRow>,
    minus: M,
    even: E,
    cell: C,
    l: GridLayout,
    k: int,
    i: usize,
    j: usize,
)
    requires
        map.wf(),
        map.layout == Some(l),
        map.indexes(rows, minus, even, cell),
        0 <= k < rows.len(),
        given::gives3(cell, rows[k].lon, l.origin_x, l.step_x) == Some(i),
        given::gives3(cell, rows[k].lat, l.origin_y, l.step_y) == Some(j),
        i < l.nx,
        j < l.ny,
    ensures
        map.rows@[i * l.ny + j] == rows[k],
{
    assert(layout::slot_of(cell, l, rows[k]) == i * l.ny + j);
}

/// The rows of a lattice stand column by column, each where its two lines cross, with the
/// sample of its place.
pub proof fn law_lattice_rows<A: Fn(usize) -> Real32>(
    rows: Seq<WeatherRow>,
    columns: int,
    rows_count: int,
    samples: Seq<WindSample>,
    along: A,
    i: usize,
    j: usize,
)
    requires
        wind_map::is_lattice(rows, columns, rows_count, samples, along),
        i < columns,
        j < rows_count,
    ensures
        rows.len() == samples.len(),
        rows[i * rows_count + j].lon == given::gives1(along, i),
        rows[i * rows_count + j].lat == given::gives1(along, j),
        rows[i * rows_count + j].sample == samples[i * rows_count + j],
{
    assert(rows[i * rows_count + j] == lattice::lattice_row(
        samples,
        rows_count,
        i as int,
        j as int,
        along,
    ));
}

/// A field without wind has a calm sample at every place.
pub proof fn law_calm_has_no_wind(n: int, k: int)
    requires
        0 <= k < n,
    ensures
        wind_map::calm(n).len() == n,
        wind_map::calm(n)[k].speed.bits == 0,
        wind_map::calm(n)[k].direction.bits == 0,
{
}

/// The rows told for a time are those with that time, in the order in which they are told,
/// without it.
pub proof fn law_rows_of_a_time(rows: Seq<TimedWeatherRow>, next: TimedWeatherRow, t: Real32)
    ensures
        timed_rows::rows_at(rows.push(next), t) == (if next.t_seconds.equals(t) {
            timed_rows::rows_at(rows, t).push(
                (WeatherRow { lon: next.lon, lat: next.lat, sample: next.sample }),
            )
        } else {
            timed_rows::rows_at(rows, t)
        }),
        timed_rows::rows_at(Seq::empty(), t).len() == 0,
{
    assert(rows.push(next).drop_last() =~= rows);
}

/// There is a frame for each time, in rising order, of the rows with that time.
pub proof fn law_frame_for_each_time(rows: Seq<TimedWeatherRow>, r: int) -> (k: int)
    requires
        forall|n: int| 0 <= n < rows.len() ==> !(#[trigger] rows[n]).t_seconds.nan(),
        0 <= r < rows.len(),
    ensures
        ({
            let ts = axes::axis_of(Seq::new(rows.len(), |n: int| rows[n].t_seconds));
            &&& timed_rows::frames_of(rows).len() == ts.len()
            &&& forall|i: int, j: int| 0 <= i < j < ts.len() ==> (#[trigger] ts[i]).below(#[trigger] ts[j])
            &&& 0 <= k < ts.len()
            &&& ts[k].equals(rows[r].t_seconds)
            &&& timed_rows::frames_of(rows)[k] == timed_rows::rows_at(rows, ts[k])
        }),
{
    let all = timed_rows::times(rows);
    assert(all =~= Seq::new(rows.len(), |n: int| rows[n].t_seconds));
    assert(all[r] == rows[r].t_seconds);
    assert(axes::all_numbers(all));
    axes::law_axis_holds_each_number_once(all, all[r]);
    let ts = axes::axis_of(all);
    choose|k: int| 0 <= k < ts.len() && (#[trigger] ts[k]).equals(all[r])
}

/// Rows laid out carry the time of their frame and are otherwise as they were; frames follow
/// one another.
pub proof fn law_frames_are_laid_out_in_turn(
    frames: Seq<Seq<WeatherRow>>,
    last: Seq<WeatherRow>,
    ts: Seq<Real32>,
    k: int,
)
    requires
        ts.len() > frames.len(),
        0 <= k < last.len(),
    ensures
        ({
            let before = timed_rows::laid_out(frames, ts);
            let all = timed_rows::laid_out(frames.push(last), ts);
            &&& all.len() == before.len() + last.len()
            &&& all.take(before.len() as int) == before
            &&& all[before.len() + k].lon == last[k].lon
            &&& all[before.len() + k].lat == last[k].lat
            &&& all[before.len() + k].sample == last[k].sample
            &&& all[before.len() + k].t_seconds == ts[frames.len() as int]
        }),
        timed_rows::laid_out(Seq::empty(), ts).len() == 0,
{
    assert(frames.push(last).drop_last() =~= frames);
    let before = timed_rows::laid_out(frames, ts);
    let all = timed_rows::laid_out(frames.push(last), ts);
    assert(all.take(before.len() as int) =~= before);
}

/// Resampled wind is stored time by time for a cell, cell by cell along a row, and row by row.
pub proof fn law_places_run_through_times_first(nx: int, nt: int, i: int, j: int, k: int)
    ensures
        baked::place(nx, nt, 0, 0, 0) == 0,
        baked::place(nx, nt, i, j, k + 1) == baked::place(nx, nt, i, j, k) + 1,
        baked::place(nx, nt, i + 1, j, k) == baked::place(nx, nt, i, j, k) + nt,
        baked::place(nx, nt, i, j + 1, k) == baked::place(nx, nt, i, j, k) + nx * nt,
{
    assert((j * nx + i + 1) * nt == (j * nx + i) * nt + nt) by (nonlinear_arith);
    assert(((j + 1) * nx + i) * nt == (j * nx + i) * nt + nx * nt) by (nonlinear_arith);
    assert((0 * nx + 0) * nt == 0) by (nonlinear_arith);
}

/// Rows fill a grid if all their places are numbers, there are at least two longitudes and two
/// latitudes and as many rows as those have pairs, both steps are finite and above zero,
/// neighbours are evenly apart, and every row falls into a cell of its own.
pub proof fn law_rows_that_fill_a_grid<
    M: Fn(Real32, Real32) -> Real32,
    E: Fn(Real32, Real32, Real32) -> bool,
    C: Fn(Real32, Real32, Real32) -> Option<usize>,
>(minus: M, even: E, cell: C, rows: Seq<WeatherRow>, xs: Seq<Real32>, ys: Seq<Real32>, at: Seq<(usize, usize)>)
    requires
        rows.len() <= usize::MAX,
        forall|k: int| 0 <= k < rows.len() ==> !(#[trigger] rows[k]).lon.nan() && !rows[k].lat.nan(),
        xs == axes::axis_of(Seq::new(rows.len(), |n: int| rows[n].lon)),
        ys == axes::axis_of(Seq::new(rows.len(), |n: int| rows[n].lat)),
        xs.len() >= 2,
        ys.len() >= 2,
        xs.len() * ys.len() == rows.len(),
        at.len() == rows.len(),
        ({
            let dx = given::gives2(minus, xs[1], xs[0]);
            let dy = given::gives2(minus, ys[1], ys[0]);
            &&& dx.finite() && (Real32 { bits: 0 }).below(dx)
            &&& dy.finite() && (Real32 { bits: 0 }).below(dy)
            &&& forall|k: int, m: int|
                0 <= k && m == k + 1 && m < xs.len() ==> given::gives3(
                    even,
                    #[trigger] xs[k],
                    #[trigger] xs[m],
                    dx,
                )
            &&& forall|k: int, m: int|
                0 <= k && m == k + 1 && m < ys.len() ==> given::gives3(
                    even,
                    #[trigger] ys[k],
                    #[trigger] ys[m],
                    dy,
                )
            &&& forall|k: int|
                0 <= k < rows.len() ==> (#[trigger] at[k]).0 < xs.len() && at[k].1 < ys.len()
                    && given::gives3(cell, rows[k].lon, xs[0], dx) == Some(at[k].0) && given::gives3(
                    cell,
                    rows[k].lat,
                    ys[0],
                    dy,
                ) == Some(at[k].1)
        }),
        forall|k: int, m: int| 0 <= k < m < at.len() ==> at[k] != at[m],
    ensures
        layout::layout_of(minus, even, cell, rows) is Some,
{
    let lons = layout::lons(rows);
    let lats = layout::lats(rows);
    assert(lons =~= Seq::new(rows.len(), |n: int| rows[n].lon));
    assert(lats =~= Seq::new(rows.len(), |n: int| rows[n].lat));
    assert forall|k: int| 0 <= k < lons.len() implies !(#[trigger] lons[k]).nan() by {
        assert(lons[k] == rows[k].lon);
    }
    assert forall|k: int| 0 <= k < lats.len() implies !(#[trigger] lats[k]).nan() by {
        assert(lats[k] == rows[k].lat);
    }
    let a = xs.len() as int;
    let b = ys.len() as int;
    assert(a <= a * b && b <= a * b) by (nonlinear_arith)
        requires
            a >= 2,
            b >= 2,
    ;
    let l = layout::candidate(minus, xs, ys);
    assert forall|k: int| 0 <= k < xs.len() - 1 implies layout::even_at(even, xs, l.step_x, k) by {
        let m = k + 1;
        assert(given::gives3(even, xs[k], xs[m], l.step_x));
    }
    assert forall|k: int| 0 <= k < ys.len() - 1 implies layout::even_at(even, ys, l.step_y, k) by {
        let m = k + 1;
        assert(given::gives3(even, ys[k], ys[m], l.step_y));
    }
    assert forall|k: int| 0 <= k < rows.len() implies layout::cell_of(cell, l, #[trigger] rows[k]) == Some(
        at[k],
    ) by {
        assert(at[k].0 < xs.len());
    }
    assert forall|i: int, j: int| 0 <= i < j < rows.len() implies layout::slot_of(
        cell,
        l,
        #[trigger] rows[i],
    ) != layout::slot_of(cell, l, #[trigger] rows[j]) by {
        assert(layout::cell_of(cell, l, rows[i]) == Some(at[i]));
        assert(layout::cell_of(cell, l, rows[j]) == Some(at[j]));
        assert(at[i].1 < ys.len() && at[j].1 < ys.len());
        lemma_slots_differ(
            at[i].0 as int,
            at[i].1 as int,
            at[j].0 as int,
            at[j].1 as int,
            l.ny as int,
        );
    }
    assert(layout::fills(cell, l, rows));
    assert(layout::gridded(minus, even, cell, rows));
}

/// Different cells have different places.
proof fn lemma_slots_differ(i: int, j: int, k: int, m: int, ny: int)
    requires
        0 <= j < ny,
        0 <= m < ny,
        i != k || j != m,
    ensures
        i * ny + j != k * ny + m,
{
    if i * ny + j == k * ny + m {
        vstd::arithmetic::div_mod::lemma_fundamental_div_mod_converse(i * ny + j, ny, i, j);
        vstd::arithmetic::div_mod::lemma_fundamental_div_mod_converse(k * ny + m, ny, k, m);
    }
}

} // verus!
