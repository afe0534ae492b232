//! Wind fields, at one time and over time.
//!
//! What needs floating-point arithmetic is handed in: how far apart two places
//! are, which cell a place falls into, where in its cycle a time falls.
pub mod baked;
pub mod lattice;
pub mod layout;
pub mod timed_rows;
pub mod told;

use crate::axes;
use crate::calendar::UtcTime;
use crate::given;
use crate::number::Real32;
use crate::wind_map::layout::{detect_grid_layout, reorder_to_grid, GridLayout};
use crate::wind_map::timed_rows::{group_by_time, push_stamped, TimedWeatherRow};
use vstd::prelude::*;

verus! {

/// The wind at a point: how fast it blows, in knots, and from where, in degrees
/// clockwise from north.
#[derive(Clone, Copy, Debug, PartialEq, Eq, Structural)]
pub struct WindSample {
    pub speed: Real32,
    pub direction: Real32,
}

/// The wind at a place.
#[derive(Clone, Copy, Debug, PartialEq, Eq, Structural)]
pub struct WeatherRow {
    pub lon: Real32,
    pub lat: Real32,
    pub sample: WindSample,
}

/// The wind field at one time: rows on a regular grid, or scattered.
#[derive(Clone)]
pub struct WindMap {
    /// The grid, where the rows fill one.
    pub layout: Option<GridLayout>,
    /// The rows, on a grid each at its place.
    pub rows: Vec<WeatherRow>,
}

/// The samples that a wind is made of.
#[derive(Debug)]
pub enum Blend {
    /// One sample as it is.
    Exact(WindSample),
    /// Samples, each with the square of its distance, nearer ones counting more.
    Weighted(Vec<(Real32, WindSample)>),
}

/// The nearest of the numbers from 0 up to and without `n`.
pub open spec fn clamped(v: int, n: int) -> int {
    if v < 0 {
        0
    } else if v >= n {
        n - 1
    } else {
        v
    }
}

/// The nearest of the numbers from 0 up to and without `n`.
pub fn clamp_index(v: i64, n: usize) -> (r: usize)
    requires
        n >= 1,
    ensures
        r == clamped(v as int, n as int),
        r < n,
{
    if v < 0 {
        0
    } else if v as u64 >= n as u64 {
        n - 1
    } else {
        v as usize
    }
}

/// The first of the samples whose distance is none, or all with their distances.
pub open spec fn blended(b: Blend, near: Seq<(Real32, usize)>, rows: Seq<WeatherRow>) -> bool {
    match b {
        Blend::Exact(s) => exists|k: int|
            {
                &&& #[trigger] first_hit(near, k)
                &&& s == rows[near[k].1 as int].sample
            },
        Blend::Weighted(list) => {
            &&& forall|k: int| 0 <= k < near.len() ==> !is_zero((#[trigger] near[k]).0)
            &&& list@ == Seq::new(near.len(), |k: int| (near[k].0, rows[near[k].1 as int].sample))
        },
    }
}

/// Whether a number is zero.
pub open spec fn is_zero(d: Real32) -> bool {
    d.equals(Real32 { bits: 0 })
}

/// Whether the distance at place `k` is the first that is zero.
pub open spec fn first_hit(near: Seq<(Real32, usize)>, k: int) -> bool {
    &&& 0 <= k < near.len()
    &&& is_zero(near[k].0)
    &&& forall|i: int| 0 <= i < k ==> !is_zero((#[trigger] near[i]).0)
}

/// The samples that a wind is made of, out of rows and the squares of their
/// distances. A row that is hit exactly gives its sample alone.
pub fn blend_of(rows: &Vec<WeatherRow>, near: &Vec<(Real32, usize)>) -> (b: Blend)
    requires
        forall|k: int| 0 <= k < near@.len() ==> (#[trigger] near@[k]).1 < rows@.len(),
    ensures
        blended(b, near@, rows@),
{
    let mut list: Vec<(Real32, WindSample)> = Vec::new();
    let mut k: usize = 0;
    while k < near.len()
        invariant
            k <= near@.len(),
            forall|i: int| 0 <= i < near@.len() ==> (#[trigger] near@[i]).1 < rows@.len(),
            forall|i: int| 0 <= i < k ==> !is_zero((#[trigger] near@[i]).0),
            list@ == Seq::new(k as nat, |i: int| (near@[i].0, rows@[near@[i].1 as int].sample)),
        decreases near@.len() - k,
    {
        let (d, at): (Real32, usize) = near[k];
        assert(near@[k as int] == (d, at));
        let sample: WindSample = rows[at].sample;
        if d.eq_num(Real32 { bits: 0 }) {
            assert(first_hit(near@, k as int));
            return Blend::Exact(sample);
        }
        list.push((d, sample));
        assert(list@ =~= Seq::new(
            (k + 1) as nat,
            |i: int| (near@[i].0, rows@[near@[i].1 as int].sample),
        ));
        k += 1;
    }
    Blend::Weighted(list)
}

/// The cells around a place: those below and above it on each axis. They may lie
/// outside the grid.
#[derive(Clone, Copy, Debug)]
pub struct CellSpan {
    pub i_lo: i64,
    pub i_hi: i64,
    pub j_lo: i64,
    pub j_hi: i64,
}

impl CellSpan {
    /// The four corners, moved onto the grid.
    pub open spec fn corners(self, l: GridLayout) -> Seq<int> {
        let i_lo = clamped(self.i_lo as int, l.nx as int);
        let i_hi = clamped(self.i_hi as int, l.nx as int);
        let j_lo = clamped(self.j_lo as int, l.ny as int);
        let j_hi = clamped(self.j_hi as int, l.ny as int);
        seq![i_lo * l.ny + j_lo, i_hi * l.ny + j_lo, i_lo * l.ny + j_hi, i_hi * l.ny + j_hi]
    }

    /// Whether the cell stored at place `c` lies in the span moved onto the grid.
    pub open spec fn spans(self, l: GridLayout, c: int) -> bool {
        exists|i: int, j: int|
            {
                &&& clamped(self.i_lo as int, l.nx as int) <= i <= clamped(self.i_hi as int, l.nx as int)
                &&& clamped(self.j_lo as int, l.ny as int) <= j <= clamped(self.j_hi as int, l.ny as int)
                &&& c == #[trigger] place(l, i, j)
            }
    }
}

/// Where a grid stores the cell in column `i` of row `j`.
pub open spec fn place(l: GridLayout, i: int, j: int) -> int {
    i * l.ny + j
}

/// Whether each number is less than those after it.
pub open spec fn climbing(s: Seq<usize>) -> bool {
    forall|i: int, j: int| 0 <= i < j < s.len() ==> s[i] < s[j]
}

/// Rows with their distances from a place.
pub open spec fn measured<D: Fn(Real32, Real32) -> Real32>(
    near: Seq<(Real32, usize)>,
    at: Seq<int>,
    rows: Seq<WeatherRow>,
    dist_sq: D,
) -> bool {
    &&& near.len() == at.len()
    &&& forall|k: int|
        0 <= k < near.len() ==> (#[trigger] near[k]).1 == at[k] && near[k].0 == given::gives2(
            dist_sq,
            rows[at[k]].lon,
            rows[at[k]].lat,
        )
}

/// Whether samples are those of rows at given places with their distances.
pub open spec fn blends_at<D: Fn(Real32, Real32) -> Real32>(
    b: Blend,
    at: Seq<int>,
    rows: Seq<WeatherRow>,
    dist_sq: D,
) -> bool {
    exists|near: Seq<(Real32, usize)>|
        {
            &&& #[trigger] measured(near, at, rows, dist_sq)
            &&& blended(b, near, rows)
        }
}

/// Whether samples are those of the `n` rows that are told to be nearest.
pub open spec fn blends_near<N: Fn(usize) -> Vec<(Real32, usize)>>(
    b: Blend,
    n: usize,
    rows: Seq<WeatherRow>,
    nearest: N,
) -> bool {
    exists|near: Vec<(Real32, usize)>|
        {
            &&& #[trigger] call_ensures(nearest, (n,), near)
            &&& blended(b, near@, rows)
        }
}

/// How many rows are asked for where they are scattered.
pub open spec fn nearest_count(len: nat) -> nat {
    if len > 4 {
        4
    } else {
        len
    }
}

impl WindMap {
    /// Whether a grid has a row for each cell, and both axes.
    pub open spec fn wf(&self) -> bool {
        self.layout matches Some(l) ==> {
            &&& l.nx >= 1
            &&& l.ny >= 1
            &&& self.rows@.len() == l.nx * l.ny
        }
    }

    /// Whether a map is the one of given rows: on the grid that they fill, each at
    /// its place, or scattered as they are where they fill none.
    pub open spec fn indexes<
        M: Fn(Real32, Real32) -> Real32,
        E: Fn(Real32, Real32, Real32) -> bool,
        C: Fn(Real32, Real32, Real32) -> Option<usize>,
    >(&self, rows: Seq<WeatherRow>, minus: M, even: E, cell: C) -> bool {
        &&& self.layout is Some <==> layout::gridded(minus, even, cell, rows)
        &&& self.layout is None ==> self.rows@ == rows
        &&& self.layout matches Some(l) ==> {
            &&& l == layout::candidate(
                minus,
                axes::axis_of(layout::lons(rows)),
                axes::axis_of(layout::lats(rows)),
            )
            &&& self.rows@.len() == rows.len()
            &&& forall|k: int|
                0 <= k < rows.len() ==> 0 <= layout::slot_of(cell, l, #[trigger] rows[k])
                    < self.rows@.len() && self.rows@[layout::slot_of(cell, l, rows[k])] == rows[k]
            &&& forall|s: int|
                0 <= s < self.rows@.len() ==> layout::taken(cell, l, rows, rows.len() as int, s)
        }
    }

    /// A map of rows. Where they fill a regular grid they are put in its order.
    pub fn new<
        M: Fn(Real32, Real32) -> Real32,
        E: Fn(Real32, Real32, Real32) -> bool,
        C: Fn(Real32, Real32, Real32) -> Option<usize>,
    >(rows: Vec<WeatherRow>, minus: &M, even: &E, cell: &C) -> (map: WindMap)
        requires
            given::settled2(*minus),
            given::settled3(*even),
            given::settled3(*cell),
        ensures
            map.wf(),
            map.indexes(rows@, *minus, *even, *cell),
    {
        match detect_grid_layout(&rows, minus, even, cell) {
            Some(l) => {
                let rows: Vec<WeatherRow> = reorder_to_grid(rows, &l, cell);
                WindMap { layout: Some(l), rows }
            },
            None => WindMap { layout: None, rows },
        }
    }

    /// A map of rows that are already in the order of a grid.
    pub fn from_grid(rows: Vec<WeatherRow>, layout: GridLayout) -> (map: WindMap)
        requires
            layout.nx >= 1,
            layout.ny >= 1,
            rows@.len() == layout.nx * layout.ny,
        ensures
            map.wf(),
            map.rows == rows,
            map.layout == Some(layout),
    {
        WindMap { layout: Some(layout), rows }
    }

    /// The rows.
    pub fn rows(&self) -> (rows: &Vec<WeatherRow>)
        ensures
            *rows == self.rows,
    {
        &self.rows
    }

    /// The grid, where the rows fill one.
    pub fn grid_layout(&self) -> (l: Option<GridLayout>)
        ensures
            l == self.layout,
    {
        self.layout
    }

    /// The smaller of the two steps of the grid.
    pub fn grid_step(&self) -> (s: Option<Real32>)
        ensures
            match self.layout {
                None => s is None,
                Some(l) => s == Some(
                    if l.step_x.nan() || l.step_y.below(l.step_x) {
                        l.step_y
                    } else {
                        l.step_x
                    },
                ),
            },
    {
        match self.layout {
            None => None,
            Some(l) => if l.step_x.is_nan() || l.step_y.lt(l.step_x) {
                Some(l.step_y)
            } else {
                Some(l.step_x)
            },
        }
    }

    /// Changes the sample of a row; `None` where there is no such row.
    pub fn set_sample(&mut self, index: usize, speed: Real32, direction: Real32) -> (done: Option<()>)
        requires
            old(self).wf(),
        ensures
            final(self).wf(),
            final(self).layout == old(self).layout,
            done is Some <==> index < old(self).rows@.len(),
            done is None ==> final(self).rows == old(self).rows,
            done is Some ==> ({
                let was = old(self).rows@[index as int];
                final(self).rows@ == old(self).rows@.update(
                    index as int,
                    (WeatherRow {
                        lon: was.lon,
                        lat: was.lat,
                        sample: (WindSample { speed, direction }),
                    }),
                )
            }),
    {
        if index >= self.rows.len() {
            return None;
        }
        let was: WeatherRow = self.rows[index];
        self.rows.set(
            index,
            WeatherRow { lon: was.lon, lat: was.lat, sample: WindSample { speed, direction } },
        );
        Some(())
    }

    /// The samples that the wind at a place is made of.
    ///
    /// On a grid they are those of the cell's four corners, `span` moved onto the
    /// grid, and `dist_sq` gives the square of a distance from the place. Where
    /// the rows are scattered, `nearest` gives as many as asked for with the
    /// squares of their distances. Without rows there is no wind.
    pub fn query<D: Fn(Real32, Real32) -> Real32, N: Fn(usize) -> Vec<(Real32, usize)>>(
        &self,
        span: CellSpan,
        dist_sq: &D,
        nearest: &N,
    ) -> (b: Blend)
        requires
            self.wf(),
            given::settled2(*dist_sq),
            forall|n: usize| #[trigger] call_requires(*nearest, (n,)),
            forall|n: usize, near: Vec<(Real32, usize)>| #[trigger]
                call_ensures(*nearest, (n,), near) ==> forall|k: int|
                    0 <= k < near@.len() ==> (#[trigger] near@[k]).1 < self.rows@.len(),
        ensures
            self.layout matches Some(l) ==> blends_at(b, span.corners(l), self.rows@, *dist_sq),
            self.layout is None && self.rows@.len() == 0 ==> (b matches Blend::Exact(s)
                && s.speed.bits == 0 && s.direction.bits == 0),
            self.layout is None && self.rows@.len() > 0 ==> blends_near(
                b,
                nearest_count(self.rows@.len()) as usize,
                self.rows@,
                *nearest,
            ),
    {
        match self.layout {
            Some(l) => {
                let i_lo: usize = clamp_index(span.i_lo, l.nx);
                let i_hi: usize = clamp_index(span.i_hi, l.nx);
                let j_lo: usize = clamp_index(span.j_lo, l.ny);
                let j_hi: usize = clamp_index(span.j_hi, l.ny);
                let count: usize = self.rows.len();
                proof {
                    layout::lemma_slot(i_lo as int, j_lo as int, l.nx as int, l.ny as int);
                    layout::lemma_slot(i_hi as int, j_lo as int, l.nx as int, l.ny as int);
                    layout::lemma_slot(i_lo as int, j_hi as int, l.nx as int, l.ny as int);
                    layout::lemma_slot(i_hi as int, j_hi as int, l.nx as int, l.ny as int);
                }
                let c0: usize = i_lo * l.ny + j_lo;
                let c1: usize = i_hi * l.ny + j_lo;
                let c2: usize = i_lo * l.ny + j_hi;
                let c3: usize = i_hi * l.ny + j_hi;
                let mut near: Vec<(Real32, usize)> = Vec::new();
                near.push((dist_sq(self.rows[c0].lon, self.rows[c0].lat), c0));
                near.push((dist_sq(self.rows[c1].lon, self.rows[c1].lat), c1));
                near.push((dist_sq(self.rows[c2].lon, self.rows[c2].lat), c2));
                near.push((dist_sq(self.rows[c3].lon, self.rows[c3].lat), c3));
                let b: Blend = blend_of(&self.rows, &near);
                assert(measured(near@, span.corners(l), self.rows@, *dist_sq));
                assert(blends_at(b, span.corners(l), self.rows@, *dist_sq));
                b
            },
            None => {
                let len: usize = self.rows.len();
                if len == 0 {
                    return Blend::Exact(
                        WindSample { speed: Real32 { bits: 0 }, direction: Real32 { bits: 0 } },
                    );
                }
                let n: usize = if len > 4 {
                    4
                } else {
                    len
                };
                let near: Vec<(Real32, usize)> = nearest(n);
                let b: Blend = blend_of(&self.rows, &near);
                assert(call_ensures(*nearest, (n,), near));
                assert(blends_near(b, n, self.rows@, *nearest));
                b
            },
        }
    }

    /// Whether places are those of the rows within a circle.
    pub open spec fn circles<W: Fn(Real32, Real32) -> bool, S: Fn() -> Vec<usize>>(
        &self,
        out: Vec<usize>,
        span: CellSpan,
        within: W,
        scattered: S,
    ) -> bool {
        match self.layout {
            None => call_ensures(scattered, (), out),
            Some(l) => {
                &&& climbing(out@)
                &&& forall|c: usize| #[trigger]
                    out@.contains(c) <==> c < self.rows@.len() && span.spans(l, c as int)
                        && given::gives2(
                        within,
                        self.rows@[c as int].lon,
                        self.rows@[c as int].lat,
                    )
            },
        }
    }

    /// The places of the rows within a circle, in rising order.
    ///
    /// On a grid only cells of `span`, moved onto the grid, are looked at, and
    /// `within` tells which lie in the circle. Where the rows are scattered, this
    /// is what `scattered` finds.
    pub fn query_circle_indices<W: Fn(Real32, Real32) -> bool, S: Fn() -> Vec<usize>>(
        &self,
        span: CellSpan,
        within: &W,
        scattered: &S,
    ) -> (out: Vec<usize>)
        requires
            self.wf(),
            given::settled2(*within),
            call_requires(*scattered, ()),
        ensures
            self.circles(out, span, *within, *scattered),
    {
        let l: GridLayout = match self.layout {
            None => {
                return scattered();
            },
            Some(l) => l,
        };
        let i_lo: usize = clamp_index(span.i_lo, l.nx);
        let i_hi: usize = clamp_index(span.i_hi, l.nx);
        let j_lo: usize = clamp_index(span.j_lo, l.ny);
        let j_hi: usize = clamp_index(span.j_hi, l.ny);
        let count: usize = self.rows.len();
        let mut out: Vec<usize> = Vec::new();
        let mut i: usize = i_lo;
        while i <= i_hi
            invariant
                self.layout == Some(l),
                self.wf(),
                given::settled2(*within),
                count == self.rows@.len() == l.nx * l.ny,
                i_hi < l.nx,
                j_hi < l.ny,
                j_lo < l.ny,
                i_lo <= i <= i_hi + 1 || i == i_lo,
                climbing(out@),
                forall|k: int| 0 <= k < out@.len() ==> #[trigger] out@[k] < i * l.ny,
                forall|c: usize| #[trigger]
                    out@.contains(c) <==> circled(self.rows@, l, *within, i_lo as int, i as int, j_lo as int, j_hi as int, c),
            decreases i_hi + 1 - i,
        {
            let mut j: usize = j_lo;
            let ghost columns = out@;
            while j <= j_hi
                invariant
                    self.layout == Some(l),
                    self.wf(),
                    given::settled2(*within),
                    count == self.rows@.len() == l.nx * l.ny,
                    i_lo <= i <= i_hi < l.nx,
                    j_hi < l.ny,
                    j_lo < l.ny,
                    j_lo <= j <= j_hi + 1 || j == j_lo,
                    climbing(out@),
                    forall|k: int| 0 <= k < columns.len() ==> #[trigger] columns[k] < i * l.ny,
                    forall|c: usize| #[trigger]
                        columns.contains(c) <==> circled(self.rows@, l, *within, i_lo as int, i as int, j_lo as int, j_hi as int, c),
                    forall|k: int| 0 <= k < out@.len() ==> #[trigger] out@[k] < i * l.ny + j,
                    forall|c: usize| #[trigger]
                        out@.contains(c) <==> columns.contains(c) || circled(self.rows@, l, *within, i as int, i + 1, j_lo as int, j - 1, c),
                decreases j_hi + 1 - j,
            {
                proof {
                    layout::lemma_slot(i as int, j as int, l.nx as int, l.ny as int);
                }
                let c: usize = i * l.ny + j;
                let row: WeatherRow = self.rows[c];
                let hit: bool = within(row.lon, row.lat);
                let ghost before = out@;
                if hit {
                    out.push(c);
                }
                proof {
                    assert(hit == given::gives2(*within, row.lon, row.lat));
                    assert(place(l, i as int, j as int) == c);
                    assert forall|d: usize| #[trigger]
                        out@.contains(d) <==> columns.contains(d) || circled(self.rows@, l, *within, i as int, i + 1, j_lo as int, j as int, d) by {
                        lemma_one_cell(self.rows@, l, *within, i as int, j_lo as int, j as int, d);
                        if out@.contains(d) {
                            let k = choose|k: int| 0 <= k < out@.len() && out@[k] == d;
                            if k < before.len() {
                                assert(before[k] == d);
                                assert(before.contains(d));
                            } else {
                                assert(d == c);
                            }
                        }
                        if before.contains(d) {
                            let k = choose|k: int| 0 <= k < before.len() && before[k] == d;
                            assert(out@[k] == d);
                        }
                        if hit {
                            assert(out@[before.len() as int] == c);
                        }
                    }
                }
                j += 1;
            }
            proof {
                assert(i * l.ny + l.ny == (i + 1) * l.ny) by (nonlinear_arith);
                assert forall|c: usize| #[trigger]
                    out@.contains(c) <==> circled(self.rows@, l, *within, i_lo as int, i + 1, j_lo as int, j_hi as int, c) by {
                    lemma_one_column(self.rows@, l, *within, i_lo as int, i as int, j_lo as int, j_hi as int, c);
                    if j_lo > j_hi {
                        assert(!circled(self.rows@, l, *within, i as int, i + 1, j_lo as int, j_hi as int, c));
                    }
                }
            }
            i += 1;
        }
        proof {
            assert forall|c: usize| #[trigger]
                out@.contains(c) <==> c < self.rows@.len() && span.spans(l, c as int) && given::gives2(
                    *within,
                    self.rows@[c as int].lon,
                    self.rows@[c as int].lat,
                ) by {
                lemma_whole_span(self.rows@, l, *within, span, c);
                if i_lo > i_hi {
                    assert(!circled(self.rows@, l, *within, i_lo as int, i_hi + 1, j_lo as int, j_hi as int, c));
                }
            }
        }
        out
    }

    /// The rows within a circle, in the order of their places. The functions are those
    /// of `query_circle_indices`.
    pub fn query_circle<W: Fn(Real32, Real32) -> bool, S: Fn() -> Vec<usize>>(
        &self,
        span: CellSpan,
        within: &W,
        scattered: &S,
    ) -> (out: Vec<WeatherRow>)
        requires
            self.wf(),
            given::settled2(*within),
            call_requires(*scattered, ()),
            forall|places: Vec<usize>| #[trigger]
                call_ensures(*scattered, (), places) ==> forall|k: int|
                    0 <= k < places@.len() ==> #[trigger] places@[k] < self.rows@.len(),
        ensures
            exists|places: Vec<usize>| #[trigger]
                self.circles(places, span, *within, *scattered) && out@ == rows_at(
                    self.rows@,
                    places@,
                ),
    {
        let places: Vec<usize> = self.query_circle_indices(span, within, scattered);
        assert(self.circles(places, span, *within, *scattered));
        assert forall|j: int| 0 <= j < places@.len() implies #[trigger] places@[j]
            < self.rows@.len() by {
            assert(places@.contains(places@[j]));
        }
        let mut out: Vec<WeatherRow> = Vec::new();
        let mut k: usize = 0;
        while k < places.len()
            invariant
                k <= places@.len(),
                forall|j: int| 0 <= j < places@.len() ==> #[trigger] places@[j] < self.rows@.len(),
                out@ == rows_at(self.rows@, places@).take(k as int),
            decreases places@.len() - k,
        {
            out.push(self.rows[places[k]]);
            assert(out@ =~= rows_at(self.rows@, places@).take(k + 1));
            k += 1;
        }
        assert(out@ =~= rows_at(self.rows@, places@));
        out
    }

    /// A map of calm on a lattice. `along` tells where the `k`-th line of the lattice
    /// is, in either direction.
    pub fn generate<
        A: Fn(usize) -> Real32,
        M: Fn(Real32, Real32) -> Real32,
        E: Fn(Real32, Real32, Real32) -> bool,
        C: Fn(Real32, Real32, Real32) -> Option<usize>,
    >(columns: usize, rows_count: usize, along: &A, minus: &M, even: &E, cell: &C) -> (map: WindMap)
        requires
            columns * rows_count <= usize::MAX,
            given::settled1(*along),
            given::settled2(*minus),
            given::settled3(*even),
            given::settled3(*cell),
        ensures
            map.wf(),
            exists|rows: Seq<WeatherRow>| #[trigger]
                is_lattice(rows, columns as int, rows_count as int, calm(columns * rows_count), *along)
                    && map.indexes(rows, *minus, *even, *cell),
    {
        let n: usize = columns * rows_count;
        let mut samples: Vec<WindSample> = Vec::new();
        while samples.len() < n
            invariant
                samples@.len() <= n,
                samples@ =~= calm(samples@.len() as int),
            decreases n - samples@.len(),
        {
            samples.push(WindSample { speed: Real32 { bits: 0 }, direction: Real32 { bits: 0 } });
        }
        WindMap::generate_with(columns, rows_count, &samples, along, minus, even, cell)
    }

    /// A map of the given samples on a lattice, column by column. `along` tells where the
    /// `k`-th line of the lattice is, in either direction.
    pub fn generate_with<
        A: Fn(usize) -> Real32,
        M: Fn(Real32, Real32) -> Real32,
        E: Fn(Real32, Real32, Real32) -> bool,
        C: Fn(Real32, Real32, Real32) -> Option<usize>,
    >(
        columns: usize,
        rows_count: usize,
        samples: &Vec<WindSample>,
        along: &A,
        minus: &M,
        even: &E,
        cell: &C,
    ) -> (map: WindMap)
        requires
            samples@.len() == columns * rows_count,
            given::settled1(*along),
            given::settled2(*minus),
            given::settled3(*even),
            given::settled3(*cell),
        ensures
            map.wf(),
            exists|rows: Seq<WeatherRow>| #[trigger]
                is_lattice(rows, columns as int, rows_count as int, samples@, *along)
                    && map.indexes(rows, *minus, *even, *cell),
    {
        let rows: Vec<WeatherRow> = lattice::lattice(columns, rows_count, samples, along);
        let ghost laid = rows@;
        let map: WindMap = WindMap::new(rows, minus, even, cell);
        assert(is_lattice(laid, columns as int, rows_count as int, samples@, *along));
        map
    }
}

/// Rows at given places.
pub open spec fn rows_at(rows: Seq<WeatherRow>, places: Seq<usize>) -> Seq<WeatherRow> {
    Seq::new(places.len(), |k: int| rows[places[k] as int])
}

/// So many samples without wind.
pub open spec fn calm(n: int) -> Seq<WindSample> {
    Seq::new(
        n as nat,
        |k: int| WindSample { speed: Real32 { bits: 0 }, direction: Real32 { bits: 0 } },
    )
}

/// Whether rows are those of a lattice with the given samples, column by column.
pub open spec fn is_lattice<A: Fn(usize) -> Real32>(
    rows: Seq<WeatherRow>,
    columns: int,
    rows_count: int,
    samples: Seq<WindSample>,
    along: A,
) -> bool {
    &&& rows.len() == samples.len()
    &&& forall|i: int, j: int|
        0 <= i < columns && 0 <= j < rows_count ==> #[trigger] rows[i * rows_count + j]
            == lattice::lattice_row(samples, rows_count, i, j, along)
}

/// Whether the cell stored at place `c` lies in the columns from `i0` on and before
/// `i1` and in the rows from `j0` to `j1`, and within the circle.
pub open spec fn circled<W: Fn(Real32, Real32) -> bool>(
    rows: Seq<WeatherRow>,
    l: GridLayout,
    within: W,
    i0: int,
    i1: int,
    j0: int,
    j1: int,
    c: usize,
) -> bool {
    &&& exists|i: int, j: int| i0 <= i < i1 && j0 <= j <= j1 && c == #[trigger] place(l, i, j)
    &&& c < rows.len()
    &&& given::gives2(within, rows[c as int].lon, rows[c as int].lat)
}

/// A further row of a column adds one cell.
proof fn lemma_one_cell<W: Fn(Real32, Real32) -> bool>(
    rows: Seq<WeatherRow>,
    l: GridLayout,
    within: W,
    i: int,
    j0: int,
    j: int,
    c: usize,
)
    requires
        j0 <= j,
        0 <= place(l, i, j) < rows.len(),
    ensures
        circled(rows, l, within, i, i + 1, j0, j, c) <==> circled(rows, l, within, i, i + 1, j0, j - 1, c)
            || (c == place(l, i, j) && given::gives2(within, rows[c as int].lon, rows[c as int].lat)),
{
    if circled(rows, l, within, i, i + 1, j0, j, c) {
        let (a, b) = choose|a: int, b: int| i <= a < i + 1 && j0 <= b <= j && c == #[trigger] place(l, a, b);
        if b < j {
            assert(i <= a < i + 1 && j0 <= b <= j - 1 && c == place(l, a, b));
        }
    }
    if circled(rows, l, within, i, i + 1, j0, j - 1, c) {
        let (a, b) = choose|a: int, b: int| i <= a < i + 1 && j0 <= b <= j - 1 && c == #[trigger] place(l, a, b);
        assert(i <= a < i + 1 && j0 <= b <= j && c == place(l, a, b));
    }
}

/// A further column adds its cells.
proof fn lemma_one_column<W: Fn(Real32, Real32) -> bool>(
    rows: Seq<WeatherRow>,
    l: GridLayout,
    within: W,
    i0: int,
    i: int,
    j0: int,
    j1: int,
    c: usize,
)
    requires
        i0 <= i,
    ensures
        circled(rows, l, within, i0, i + 1, j0, j1, c) <==> circled(rows, l, within, i0, i, j0, j1, c)
            || circled(rows, l, within, i, i + 1, j0, j1, c),
{
    if circled(rows, l, within, i0, i + 1, j0, j1, c) {
        let (a, b) = choose|a: int, b: int| i0 <= a < i + 1 && j0 <= b <= j1 && c == #[trigger] place(l, a, b);
        if a < i {
            assert(i0 <= a < i && j0 <= b <= j1 && c == place(l, a, b));
        } else {
            assert(i <= a < i + 1 && j0 <= b <= j1 && c == place(l, a, b));
        }
    }
    if circled(rows, l, within, i0, i, j0, j1, c) {
        let (a, b) = choose|a: int, b: int| i0 <= a < i && j0 <= b <= j1 && c == #[trigger] place(l, a, b);
        assert(i0 <= a < i + 1 && j0 <= b <= j1 && c == place(l, a, b));
    }
    if circled(rows, l, within, i, i + 1, j0, j1, c) {
        let (a, b) = choose|a: int, b: int| i <= a < i + 1 && j0 <= b <= j1 && c == #[trigger] place(l, a, b);
        assert(i0 <= a < i + 1 && j0 <= b <= j1 && c == place(l, a, b));
    }
}

/// All columns and rows of a span make up the span.
proof fn lemma_whole_span<W: Fn(Real32, Real32) -> bool>(
    rows: Seq<WeatherRow>,
    l: GridLayout,
    within: W,
    span: CellSpan,
    c: usize,
)
    ensures
        circled(
            rows,
            l,
            within,
            clamped(span.i_lo as int, l.nx as int),
            clamped(span.i_hi as int, l.nx as int) + 1,
            clamped(span.j_lo as int, l.ny as int),
            clamped(span.j_hi as int, l.ny as int),
            c,
        ) <==> c < rows.len() && span.spans(l, c as int) && given::gives2(
            within,
            rows[c as int].lon,
            rows[c as int].lat,
        ),
{
    let i0 = clamped(span.i_lo as int, l.nx as int);
    let i1 = clamped(span.i_hi as int, l.nx as int);
    let j0 = clamped(span.j_lo as int, l.ny as int);
    let j1 = clamped(span.j_hi as int, l.ny as int);
    if circled(rows, l, within, i0, i1 + 1, j0, j1, c) {
        let (a, b) = choose|a: int, b: int| i0 <= a < i1 + 1 && j0 <= b <= j1 && c == #[trigger] place(l, a, b);
        assert(i0 <= a <= i1 && j0 <= b <= j1 && c == place(l, a, b));
    }
    if span.spans(l, c as int) {
        let (a, b) = choose|a: int, b: int| i0 <= a <= i1 && j0 <= b <= j1 && c == #[trigger] place(l, a, b);
        assert(i0 <= a < i1 + 1 && j0 <= b <= j1 && c == place(l, a, b));
    }
}

/// Where in its cycle a time falls. A cycle runs through the frames and then
/// blends from the last back to the first.
#[derive(Clone, Copy, Debug, PartialEq, Eq, Structural)]
pub enum CyclePlace {
    /// Among the frames, the given number of whole steps from the first.
    Data { steps: u64 },
    /// In the blend from the last frame to the first.
    Tail,
}

/// The frames before and after a time, out of `n`.
pub open spec fn bracketing(n: int, place: CyclePlace) -> (int, int) {
    match place {
        CyclePlace::Data { steps } => {
            let lo = clamped(steps as int, n);
            (lo, clamped(lo + 1, n))
        },
        CyclePlace::Tail => (n - 1, 0),
    }
}

/// The frames before and after a time, out of `n`. The latter is `None` where the
/// former alone tells the wind: they are the same, or the time lies no part of the
/// way, `alpha`, from the one to the other.
pub fn bracket(n: usize, place: CyclePlace, alpha: Real32) -> (r: (usize, Option<usize>))
    requires
        n >= 1,
    ensures
        r.0 == bracketing(n as int, place).0,
        r.0 < n,
        r.1 is None <==> bracketing(n as int, place).0 == bracketing(n as int, place).1 || is_zero(alpha),
        r.1 matches Some(hi) ==> hi == bracketing(n as int, place).1 && hi < n,
{
    let (lo, hi): (usize, usize) = match place {
        CyclePlace::Data { steps } => {
            let lo: usize = if steps >= n as u64 {
                n - 1
            } else {
                steps as usize
            };
            let hi: usize = if lo + 1 >= n {
                n - 1
            } else {
                lo + 1
            };
            (lo, hi)
        },
        CyclePlace::Tail => (n - 1, 0),
    };
    if lo == hi || alpha.eq_num(Real32 { bits: 0 }) {
        (lo, None)
    } else {
        (lo, Some(hi))
    }
}

/// The bits of one.
pub const ONE_BITS: u32 = 0x3f80_0000;

/// Wind fields a fixed time apart. Past the last, the time runs in a cycle: the
/// last field blends into the first.
#[derive(Clone)]
pub struct TimedWindMap {
    pub step_seconds: Real32,
    /// How long the blend from the last field to the first takes.
    pub crossfade_seconds: Real32,
    /// The first and the last instant, where they are known.
    pub time_range: Option<(UtcTime, UtcTime)>,
    pub frames: Vec<WindMap>,
}

/// Whether all fields are in order.
pub open spec fn all_wf(frames: Seq<WindMap>) -> bool {
    forall|k: int| 0 <= k < frames.len() ==> (#[trigger] frames[k]).wf()
}

/// The rows of fields.
pub open spec fn rows_of(frames: Seq<WindMap>) -> Seq<Seq<WeatherRow>> {
    Seq::new(frames.len(), |k: int| frames[k].rows@)
}

/// Whether a difference of two numbers of which one is greater is above zero.
pub open spec fn separates<M: Fn(Real32, Real32) -> Real32>(minus: M) -> bool {
    forall|a: Real32, b: Real32| #[trigger]
        b.below(a) ==> (Real32 { bits: 0 }).below(given::gives2(minus, a, b))
}

impl TimedWindMap {
    /// Whether there is a field, the time between fields is above zero, and the
    /// first instant is no later than the last.
    pub open spec fn wf(&self) -> bool {
        &&& self.frames@.len() >= 1
        &&& all_wf(self.frames@)
        &&& (Real32 { bits: 0 }).below(self.step_seconds)
        &&& self.time_range matches Some((start, end)) ==> start.wf() && end.wf() && start.instant()
            <= end.instant()
    }

    /// Fields a fixed time apart. `crossfade` tells how long the blend from the last
    /// to the first takes, out of that time.
    pub fn new<F: Fn(Real32) -> Real32>(frames: Vec<WindMap>, step_seconds: Real32, crossfade: &F) -> (map:
        TimedWindMap)
        requires
            frames@.len() >= 1,
            all_wf(frames@),
            (Real32 { bits: 0 }).below(step_seconds),
            given::settled1(*crossfade),
        ensures
            map.wf(),
            map.frames == frames,
            map.step_seconds == step_seconds,
            map.crossfade_seconds == given::gives1(*crossfade, step_seconds),
            map.time_range is None,
    {
        TimedWindMap {
            step_seconds,
            crossfade_seconds: crossfade(step_seconds),
            time_range: None,
            frames,
        }
    }

    /// The fields with another blend from the last to the first. Less than none, and
    /// no number, counts as none: the last field is followed by the first at once.
    pub fn with_crossfade_seconds(self, secs: Real32) -> (map: TimedWindMap)
        requires
            self.wf(),
        ensures
            map.wf(),
            map.frames == self.frames,
            map.step_seconds == self.step_seconds,
            map.time_range == self.time_range,
            map.crossfade_seconds == (if secs.nan() || secs.below(Real32 { bits: 0 }) {
                Real32 { bits: 0 }
            } else {
                secs
            }),
    {
        let zero: Real32 = Real32 { bits: 0 };
        let crossfade_seconds: Real32 = if secs.is_nan() || secs.lt(zero) {
            zero
        } else {
            secs
        };
        TimedWindMap {
            step_seconds: self.step_seconds,
            crossfade_seconds,
            time_range: self.time_range,
            frames: self.frames,
        }
    }

    /// The fields with their first and last instant, which are put in order.
    pub fn with_time_range(self, start: UtcTime, end: UtcTime) -> (map: TimedWindMap)
        requires
            self.wf(),
            start.wf(),
            end.wf(),
        ensures
            map.wf(),
            map.frames == self.frames,
            map.step_seconds == self.step_seconds,
            map.crossfade_seconds == self.crossfade_seconds,
            map.time_range == Some(
                if start.instant() <= end.instant() {
                    (start, end)
                } else {
                    (end, start)
                },
            ),
    {
        let range: (UtcTime, UtcTime) = if end.is_before(start) {
            (end, start)
        } else {
            (start, end)
        };
        TimedWindMap {
            step_seconds: self.step_seconds,
            crossfade_seconds: self.crossfade_seconds,
            time_range: Some(range),
            frames: self.frames,
        }
    }

    /// The first and the last instant, where they are known.
    pub fn time_range(&self) -> (r: Option<(UtcTime, UtcTime)>)
        ensures
            r == self.time_range,
    {
        self.time_range
    }

    /// How long the blend from the last field to the first takes.
    pub fn crossfade_seconds(&self) -> (s: Real32)
        ensures
            s == self.crossfade_seconds,
    {
        self.crossfade_seconds
    }

    /// Seconds between fields.
    pub fn step_seconds(&self) -> (s: Real32)
        ensures
            s == self.step_seconds,
    {
        self.step_seconds
    }

    /// The fields.
    pub fn frames(&self) -> (f: &Vec<WindMap>)
        ensures
            *f == self.frames,
    {
        &self.frames
    }

    /// A field, if there is one of that number.
    pub fn frame(&self, idx: usize) -> (f: Option<&WindMap>)
        ensures
            f is Some <==> idx < self.frames@.len(),
            f matches Some(m) ==> *m == self.frames@[idx as int],
    {
        if idx < self.frames.len() {
            Some(&self.frames[idx])
        } else {
            None
        }
    }

    /// A field to be changed, if there is one of that number.
    pub fn frame_mut(&mut self, idx: usize) -> (f: Option<&mut WindMap>)
        ensures
            f is Some <==> idx < old(self).frames@.len(),
            f is None ==> *final(self) == *old(self),
            f matches Some(m) ==> *m == old(self).frames@[idx as int] && final(self).frames@ == old(
                self,
            ).frames@.update(idx as int, *final(m)),
            final(self).step_seconds == old(self).step_seconds,
            final(self).crossfade_seconds == old(self).crossfade_seconds,
            final(self).time_range == old(self).time_range,
    {
        if idx < self.frames.len() {
            Some(&mut self.frames[idx])
        } else {
            None
        }
    }

    /// How many fields there are.
    pub fn frame_count(&self) -> (n: usize)
        ensures
            n == self.frames@.len(),
    {
        self.frames.len()
    }

    /// Seconds from the first field to the last. `span` tells how long so many steps are.
    pub fn duration_seconds<D: Fn(usize, Real32) -> Real32>(&self, span: &D) -> (s: Real32)
        requires
            given::settled2(*span),
        ensures
            s == given::gives2(
                *span,
                if self.frames@.len() == 0 {
                    0usize
                } else {
                    (self.frames@.len() - 1) as usize
                },
                self.step_seconds,
            ),
    {
        let n: usize = self.frames.len();
        let steps: usize = if n == 0 {
            0
        } else {
            n - 1
        };
        span(steps, self.step_seconds)
    }

    /// Seconds of a whole cycle: from the first field to the last and through the blend
    /// back to the first. `span` tells how long so many steps are, and `plus` adds.
    pub fn cycle_seconds<D: Fn(usize, Real32) -> Real32, P: Fn(Real32, Real32) -> Real32>(
        &self,
        span: &D,
        plus: &P,
    ) -> (s: Real32)
        requires
            self.wf(),
            given::settled2(*span),
            given::settled2(*plus),
        ensures
            s == given::gives2(
                *plus,
                given::gives2(*span, (self.frames@.len() - 1) as usize, self.step_seconds),
                self.crossfade_seconds,
            ),
    {
        plus(self.duration_seconds(span), self.crossfade_seconds)
    }

    /// The fields of rows over time: one for each time, in rising order, as far
    /// apart as the first two are. A single field counts as one second long.
    /// `None` without rows.
    pub fn from_timed_rows<
        M: Fn(Real32, Real32) -> Real32,
        E: Fn(Real32, Real32, Real32) -> bool,
        C: Fn(Real32, Real32, Real32) -> Option<usize>,
        F: Fn(Real32) -> Real32,
    >(rows: &Vec<TimedWeatherRow>, minus: &M, even: &E, cell: &C, crossfade: &F) -> (map: Option<
        TimedWindMap,
    >)
        requires
            axes::all_numbers(timed_rows::times(rows@)),
            given::settled2(*minus),
            given::settled3(*even),
            given::settled3(*cell),
            given::settled1(*crossfade),
            separates(*minus),
        ensures
            map is None <==> rows@.len() == 0,
            map matches Some(map) ==> {
                let frames = timed_rows::frames_of(rows@);
                let ts = axes::axis_of(timed_rows::times(rows@));
                &&& map.wf()
                &&& map.frames@.len() == frames.len() == ts.len()
                &&& forall|k: int|
                    0 <= k < frames.len() ==> (#[trigger] map.frames@[k]).indexes(
                        frames[k],
                        *minus,
                        *even,
                        *cell,
                    )
                &&& map.step_seconds == (if ts.len() < 2 {
                    Real32 { bits: ONE_BITS }
                } else {
                    given::gives2(*minus, ts[1], ts[0])
                })
                &&& map.crossfade_seconds == given::gives1(*crossfade, map.step_seconds)
                &&& map.time_range is None
            },
    {
        if rows.len() == 0 {
            return None;
        }
        let (ts, mut groups): (Vec<Real32>, Vec<Vec<WeatherRow>>) = group_by_time(rows);
        let ghost all = groups@;
        let ghost wanted = timed_rows::frames_of(rows@);
        assert(timed_rows::held(all) == wanted);
        assert(all.len() == wanted.len());
        let mut frames: Vec<WindMap> = Vec::new();
        while groups.len() > 0
            invariant
                given::settled2(*minus),
                given::settled3(*even),
                given::settled3(*cell),
                all.len() == groups@.len() + frames@.len(),
                groups@ == all.take(groups@.len() as int),
                all_wf(frames@),
                forall|k: int|
                    0 <= k < frames@.len() ==> (#[trigger] frames@[k]).indexes(
                        all[groups@.len() + k]@,
                        *minus,
                        *even,
                        *cell,
                    ),
            decreases groups@.len(),
        {
            let ghost n = groups@.len();
            let ghost before = frames@;
            match groups.pop() {
                Some(group) => {
                    assert(group == all[n - 1]);
                    let map: WindMap = WindMap::new(group, minus, even, cell);
                    frames.insert(0, map);
                    proof {
                        assert(groups@ =~= all.take(n - 1));
                        assert forall|k: int| 0 <= k < frames@.len() implies (#[trigger] frames@[k]).wf()
                            && frames@[k].indexes(all[n - 1 + k]@, *minus, *even, *cell) by {
                            if k > 0 {
                                assert(frames@[k] == before[k - 1]);
                                assert(before[k - 1].wf());
                            }
                        }
                    }
                },
                None => {},
            }
        }
        proof {
            assert forall|k: int| 0 <= k < wanted.len() implies (#[trigger] frames@[k]).indexes(
                wanted[k],
                *minus,
                *even,
                *cell,
            ) by {
                assert(timed_rows::held(all)[k] == all[k]@);
            }
            if ts@.len() >= 2 {
                assert(ts@[0].below(ts@[1]));
            }
        }
        let step_seconds: Real32 = if ts.len() < 2 {
            Real32 { bits: ONE_BITS }
        } else {
            minus(ts[1], ts[0])
        };
        Some(TimedWindMap::new(frames, step_seconds, crossfade))
    }

    /// The rows of all fields, one field after another. `time_of` tells when a field
    /// holds.
    pub fn to_timed_rows<A: Fn(usize) -> Real32>(&self, time_of: &A) -> (out: Vec<TimedWeatherRow>)
        requires
            self.wf(),
            given::settled1(*time_of),
        ensures
            out@ == timed_rows::laid_out(
                rows_of(self.frames@),
                Seq::new(self.frames@.len(), |k: int| given::gives1(*time_of, k as usize)),
            ),
    {
        let ghost ts = Seq::new(self.frames@.len(), |k: int| given::gives1(*time_of, k as usize));
        let ghost all = rows_of(self.frames@);
        let mut out: Vec<TimedWeatherRow> = Vec::new();
        let mut k: usize = 0;
        while k < self.frames.len()
            invariant
                k <= self.frames@.len(),
                given::settled1(*time_of),
                ts == Seq::new(self.frames@.len(), |k: int| given::gives1(*time_of, k as usize)),
                all == rows_of(self.frames@),
                out@ == timed_rows::laid_out(all.take(k as int), ts),
            decreases self.frames@.len() - k,
        {
            let t: Real32 = time_of(k);
            push_stamped(&mut out, &self.frames[k].rows, t);
            proof {
                assert(all.take(k + 1).drop_last() =~= all.take(k as int));
                assert(all.take(k + 1).last() == self.frames@[k as int].rows@);
                assert(ts[k as int] == t);
            }
            k += 1;
        }
        assert(all.take(k as int) =~= all);
        out
    }

    /// The fields whose wind at a time is to be told, the later one only where it
    /// counts. A single field tells all times.
    pub fn query(&self, place: CyclePlace, alpha: Real32) -> (r: (usize, Option<usize>))
        requires
            self.wf(),
        ensures
            self.frames@.len() == 1 ==> r == (0usize, None::<usize>),
            ({
                let n = self.frames@.len() as int;
                let b = bracketing(n, place);
                n > 1 ==> {
                    &&& r.0 == b.0
                    &&& r.1 is None <==> b.0 == b.1 || is_zero(alpha)
                    &&& r.1 matches Some(hi) ==> hi == b.1
                }
            }),
            r.0 < self.frames@.len(),
            r.1 matches Some(hi) ==> hi < self.frames@.len(),
    {
        bracket(self.frames.len(), place, alpha)
    }

    /// The field at a time, with the places of the first field. `wind_at` tells the
    /// wind at a place at that time.
    pub fn synthesize_frame_at<
        W: Fn(Real32, Real32) -> WindSample,
        M: Fn(Real32, Real32) -> Real32,
        E: Fn(Real32, Real32, Real32) -> bool,
        C: Fn(Real32, Real32, Real32) -> Option<usize>,
    >(&self, wind_at: &W, minus: &M, even: &E, cell: &C) -> (map: WindMap)
        requires
            self.wf(),
            given::settled2(*wind_at),
            given::settled2(*minus),
            given::settled3(*even),
            given::settled3(*cell),
        ensures
            map.wf(),
            ({
                let rows = resampled(self.frames@[0].rows@, *wind_at);
                &&& self.frames@[0].layout is Some ==> map.rows@ == rows && map.layout
                    == self.frames@[0].layout
                &&& self.frames@[0].layout is None ==> map.indexes(rows, *minus, *even, *cell)
            }),
    {
        let template: &WindMap = &self.frames[0];
        assert(template.wf());
        let mut rows: Vec<WeatherRow> = Vec::new();
        let mut k: usize = 0;
        while k < template.rows.len()
            invariant
                k <= template.rows@.len(),
                given::settled2(*wind_at),
                rows@ == resampled(template.rows@, *wind_at).take(k as int),
            decreases template.rows@.len() - k,
        {
            let was: WeatherRow = template.rows[k];
            rows.push(WeatherRow { lon: was.lon, lat: was.lat, sample: wind_at(was.lon, was.lat) });
            assert(rows@ =~= resampled(template.rows@, *wind_at).take(k + 1));
            k += 1;
        }
        assert(resampled(template.rows@, *wind_at).take(k as int) =~= resampled(
            template.rows@,
            *wind_at,
        ));
        match template.layout {
            Some(l) => WindMap::from_grid(rows, l),
            None => WindMap::new(rows, minus, even, cell),
        }
    }
}

/// Rows with the wind that is told for their places.
pub open spec fn resampled<W: Fn(Real32, Real32) -> WindSample>(rows: Seq<WeatherRow>, wind_at: W) -> Seq<
    WeatherRow,
> {
    Seq::new(
        rows.len(),
        |k: int|
            WeatherRow {
                lon: rows[k].lon,
                lat: rows[k].lat,
                sample: given::gives2(wind_at, rows[k].lon, rows[k].lat),
            },
    )
}

/// The times of a cycle lead from each field to the next and at the end back to the
/// first: the field before a time is one of them, and the one after it is its
/// successor, the last field's being itself among the frames and the first in the
/// blend.
pub proof fn law_cycle_leads_round(n: int, place: CyclePlace)
    requires
        n >= 1,
    ensures
        ({
            let (lo, hi) = bracketing(n, place);
            &&& 0 <= lo < n
            &&& 0 <= hi < n
            &&& place is Tail ==> lo == n - 1 && hi == 0
            &&& place is Data ==> hi == (if lo == n - 1 {
                lo
            } else {
                lo + 1
            })
        }),
{
}

} // verus!
