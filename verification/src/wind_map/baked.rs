//! Wind fields resampled for fast lookup.
use crate::bounds::LonLatBbox;
use crate::given;
use crate::number::{Real, Real32};
use crate::wind_map;
use crate::wind_map::{bracket, clamp_index, CyclePlace, TimedWindMap};
use vstd::prelude::*;

verus! {

/// The wind as a vector: metres per second eastward and northward.
#[derive(Clone, Copy, Debug, PartialEq, Eq, Structural)]
pub struct Wind {
    pub east_mps: Real,
    pub north_mps: Real,
}

/// Which part of the world to resample, and how finely.
#[derive(Clone, Copy, Debug)]
pub struct BakeBounds {
    pub bbox: LonLatBbox,
    /// Degrees between cells.
    pub step: Real,
    /// What coordinates are divided by before they are looked up.
    pub coord_scale: Real,
}

impl BakeBounds {
    /// Whether the step and the divisor are above zero and the latitudes are in
    /// order.
    pub open spec fn wf(self) -> bool {
        let zero = Real { bits: 0 };
        &&& zero.below(self.step)
        &&& zero.below(self.coord_scale)
        &&& self.bbox.lat_min.at_most(self.bbox.lat_max)
    }
}

/// Wind over time on a regular grid. The winds of a cell stand together, in order
/// of time: that of column `i`, row `j` and time `k` is stored at place
/// `(j * nx + i) * nt + k`.
#[derive(Clone, Debug)]
pub struct BakedWindMap {
    pub grid: Vec<Wind>,
    pub nx: usize,
    pub ny: usize,
    pub nt: usize,
    pub x_min: Real,
    pub y_min: Real,
    pub step: Real,
    pub t_step_seconds: Real,
    pub crossfade_seconds: Real,
    pub coord_scale: Real,
}

/// Where the wind of a cell at a time is stored.
pub open spec fn place(nx: int, nt: int, i: int, j: int, k: int) -> int {
    (j * nx + i) * nt + k
}

/// A place of a grid lies in it.
pub proof fn lemma_place(nx: int, ny: int, nt: int, i: int, j: int, k: int)
    requires
        0 <= i < nx,
        0 <= j < ny,
        0 <= k < nt,
    ensures
        0 <= j * nx + i < nx * ny,
        0 <= (j * nx + i) * nt,
        0 <= place(nx, nt, i, j, k) < nx * ny * nt,
{
    assert(0 <= j * nx && j * nx + nx <= nx * ny) by (nonlinear_arith)
        requires
            0 <= j < ny,
            0 < nx,
    ;
    let c = j * nx + i;
    assert(0 <= c * nt && c * nt + nt <= nx * ny * nt) by (nonlinear_arith)
        requires
            0 <= c < nx * ny,
            0 < nt,
    ;
}

/// The column, row and time that are stored at a place.
pub proof fn law_places_are_told_apart(nx: int, ny: int, nt: int, p: int)
    requires
        nx > 0,
        nt > 0,
        0 <= p < nx * ny * nt,
    ensures
        0 <= p % nt < nt,
        0 <= p / nt % nx < nx,
        0 <= p / nt / nx < ny,
        place(nx, nt, p / nt % nx, p / nt / nx, p % nt) == p,
{
    let c = p / nt;
    assert(p == c * nt + p % nt && 0 <= p % nt < nt && 0 <= c < nx * ny) by (nonlinear_arith)
        requires
            nt > 0,
            0 <= p < nx * ny * nt,
            c == p / nt,
    ;
    assert(c == c / nx * nx + c % nx && 0 <= c % nx < nx && 0 <= c / nx < ny) by (nonlinear_arith)
        requires
            nx > 0,
            0 <= c < nx * ny,
    ;
}

impl BakedWindMap {
    /// Whether there is a wind for each cell and time.
    pub open spec fn wf(&self) -> bool {
        self.grid@.len() == self.nx * self.ny * self.nt
    }

    /// The number of columns.
    pub fn nx(&self) -> (n: usize)
        ensures
            n == self.nx,
    {
        self.nx
    }

    /// The number of rows.
    pub fn ny(&self) -> (n: usize)
        ensures
            n == self.ny,
    {
        self.ny
    }

    /// The number of times.
    pub fn nt(&self) -> (n: usize)
        ensures
            n == self.nt,
    {
        self.nt
    }

    /// The longitude of the first column.
    pub fn x_min(&self) -> (v: Real)
        ensures
            v == self.x_min,
    {
        self.x_min
    }

    /// The latitude of the first row.
    pub fn y_min(&self) -> (v: Real)
        ensures
            v == self.y_min,
    {
        self.y_min
    }

    /// Degrees between cells.
    pub fn step(&self) -> (v: Real)
        ensures
            v == self.step,
    {
        self.step
    }

    /// Seconds between times.
    pub fn t_step_seconds(&self) -> (v: Real)
        ensures
            v == self.t_step_seconds,
    {
        self.t_step_seconds
    }

    /// The fields of a map, resampled on a regular grid: a time for each field. `cells`
    /// tells how many columns and rows cover the bounds, `widen` gives a number as one
    /// of more digits, and `wind_at` tells the wind of a column and a row in a field.
    pub fn from_timed_map<
        N: Fn(BakeBounds) -> (usize, usize),
        L: Fn(Real32) -> Real,
        W: Fn(usize, usize, usize) -> Wind,
    >(map: &TimedWindMap, bounds: BakeBounds, cells: &N, widen: &L, wind_at: &W) -> (baked: BakedWindMap)
        requires
            map.wf(),
            bounds.wf(),
            given::settled1(*cells),
            given::settled1(*widen),
            given::settled3(*wind_at),
            ({
                let (nx, ny) = given::gives1(*cells, bounds);
                nx * ny * map.frames@.len() <= usize::MAX
            }),
        ensures
            baked.wf(),
            (baked.nx, baked.ny) == given::gives1(*cells, bounds),
            baked.nt == map.frames@.len(),
            baked.x_min == bounds.bbox.lon_min,
            baked.y_min == bounds.bbox.lat_min,
            baked.step == bounds.step,
            baked.coord_scale == bounds.coord_scale,
            baked.t_step_seconds == given::gives1(*widen, map.step_seconds),
            baked.crossfade_seconds == given::gives1(*widen, map.crossfade_seconds),
            forall|i: usize, j: usize, k: usize|
                i < baked.nx && j < baked.ny && k < baked.nt ==> baked.grid@[place(
                    baked.nx as int,
                    baked.nt as int,
                    i as int,
                    j as int,
                    k as int,
                )] == #[trigger] given::gives3(*wind_at, i, j, k),
    {
        let (nx, ny): (usize, usize) = cells(bounds);
        let nt: usize = map.frames.len();
        let mut grid: Vec<Wind> = Vec::new();
        let mut j: usize = 0;
        assert(0 * nx == 0 && 0 * nt == 0);
        while j < ny
            invariant
                j <= ny,
                nx * ny * nt <= usize::MAX,
                given::settled3(*wind_at),
                grid@.len() == j * nx * nt,
                forall|p: int| 0 <= p < grid@.len() ==> #[trigger] grid@[p] == told(nx, nt, *wind_at, p),
            decreases ny - j,
        {
            let mut i: usize = 0;
            assert((j * nx + 0) * nt == j * nx * nt);
            while i < nx
                invariant
                    i <= nx,
                    j < ny,
                    nx * ny * nt <= usize::MAX,
                    given::settled3(*wind_at),
                    grid@.len() == (j * nx + i) * nt,
                    forall|p: int| 0 <= p < grid@.len() ==> #[trigger] grid@[p] == told(nx, nt, *wind_at, p),
                decreases nx - i,
            {
                let mut k: usize = 0;
                while k < nt
                    invariant
                        k <= nt,
                        i < nx,
                        j < ny,
                        nx * ny * nt <= usize::MAX,
                        given::settled3(*wind_at),
                        grid@.len() == place(nx as int, nt as int, i as int, j as int, k as int),
                        forall|p: int| 0 <= p < grid@.len() ==> #[trigger] grid@[p] == told(nx, nt, *wind_at, p),
                    decreases nt - k,
                {
                    let w: Wind = wind_at(i, j, k);
                    proof {
                        lemma_place(nx as int, ny as int, nt as int, i as int, j as int, k as int);
                        lemma_told(nx as int, nt as int, i as int, j as int, k as int);
                    }
                    grid.push(w);
                    k += 1;
                }
                proof {
                    assert((j * nx + i) * nt + nt == (j * nx + i + 1) * nt) by (nonlinear_arith);
                }
                i += 1;
            }
            proof {
                assert(j * nx + nx == (j + 1) * nx) by (nonlinear_arith);
            }
            j += 1;
        }
        proof {
            assert(ny * nx * nt == nx * ny * nt) by (nonlinear_arith);
            assert forall|i: usize, j: usize, k: usize|
                i < nx && j < ny && k < nt implies grid@[place(
                nx as int,
                nt as int,
                i as int,
                j as int,
                k as int,
            )] == #[trigger] given::gives3(*wind_at, i, j, k) by {
                lemma_place(nx as int, ny as int, nt as int, i as int, j as int, k as int);
                lemma_told(nx as int, nt as int, i as int, j as int, k as int);
            }
        }
        BakedWindMap {
            grid,
            nx,
            ny,
            nt,
            x_min: bounds.bbox.lon_min,
            y_min: bounds.bbox.lat_min,
            step: bounds.step,
            t_step_seconds: widen(map.step_seconds),
            crossfade_seconds: widen(map.crossfade_seconds),
            coord_scale: bounds.coord_scale,
        }
    }

    /// The winds of a cell at a time, the later one only where it counts.
    ///
    /// The cell is given by its column and row, which may lie outside the grid and
    /// are moved onto it. Where there is a single time, or no time between times,
    /// the first wind is told.
    pub fn sample_wind(&self, ix: i64, iy: i64, at: CyclePlace, alpha: Real) -> (r: (Wind, Option<Wind>))
        requires
            self.wf(),
            self.nx >= 1,
            self.ny >= 1,
            self.nt >= 1,
        ensures
            ({
                let i = wind_map::clamped(ix as int, self.nx as int);
                let j = wind_map::clamped(iy as int, self.ny as int);
                let nt = self.nt as int;
                let b = wind_map::bracketing(nt, at);
                let still = nt == 1 || self.t_step_seconds.at_most(Real { bits: 0 });
                let lo = if still {
                    0
                } else {
                    b.0
                };
                &&& r.0 == self.grid@[place(self.nx as int, nt, i, j, lo)]
                &&& r.1 is None <==> still || b.0 == b.1 || alpha.equals(Real { bits: 0 })
                &&& r.1 matches Some(w) ==> w == self.grid@[place(self.nx as int, nt, i, j, b.1)]
            }),
    {
        let i: usize = clamp_index(ix, self.nx);
        let j: usize = clamp_index(iy, self.ny);
        let len: usize = self.grid.len();
        proof {
            lemma_place(self.nx as int, self.ny as int, self.nt as int, i as int, j as int, 0);
            assert(self.nx * self.ny <= self.nx * self.ny * self.nt) by (nonlinear_arith)
                requires
                    self.nt >= 1,
            ;
        }
        assert(0 <= j * self.nx <= j * self.nx + i);
        let base: usize = (j * self.nx + i) * self.nt;
        let zero: Real = Real { bits: 0 };
        if self.nt == 1 || self.t_step_seconds.le(zero) {
            return (self.grid[base], None);
        }
        let some: Real32 = if alpha.eq_num(zero) {
            Real32 { bits: 0 }
        } else {
            Real32 { bits: wind_map::ONE_BITS }
        };
        let (lo, hi): (usize, Option<usize>) = bracket(self.nt, at, some);
        proof {
            lemma_place(self.nx as int, self.ny as int, self.nt as int, i as int, j as int, lo as int);
        }
        match hi {
            None => (self.grid[base + lo], None),
            Some(hi) => {
                proof {
                    lemma_place(self.nx as int, self.ny as int, self.nt as int, i as int, j as int, hi as int);
                }
                (self.grid[base + lo], Some(self.grid[base + hi]))
            },
        }
    }
}

/// What is told for the cell and the time that are stored at a place.
pub open spec fn told<W: Fn(usize, usize, usize) -> Wind>(nx: usize, nt: usize, wind_at: W, p: int) -> Wind {
    let c = p / nt as int;
    given::gives3(
        wind_at,
        (c % nx as int) as usize,
        (c / nx as int) as usize,
        (p % nt as int) as usize,
    )
}

/// The cell and the time that are stored at the place of a cell and a time.
proof fn lemma_told(nx: int, nt: int, i: int, j: int, k: int)
    requires
        0 <= i < nx,
        0 <= j,
        0 <= k < nt,
    ensures
        ({
            let p = place(nx, nt, i, j, k);
            &&& p % nt == k
            &&& p / nt % nx == i
            &&& p / nt / nx == j
        }),
{
    let c = j * nx + i;
    let p = c * nt + k;
    assert(p / nt == c && p % nt == k) by (nonlinear_arith)
        requires
            p == c * nt + k,
            0 <= k < nt,
    ;
    assert(c / nx == j && c % nx == i) by (nonlinear_arith)
        requires
            c == j * nx + i,
            0 <= i < nx,
    ;
}

/// Which way round the world a longitude has to be moved to reach the grid.
#[derive(Clone, Copy, Debug, PartialEq, Eq, Structural)]
pub enum Turn {
    /// It stays.
    Stay,
    /// A full circle eastward.
    East,
    /// A full circle westward.
    West,
}

/// Which way round the world a longitude has to be moved to reach a grid that runs
/// from `x_min` to `x_max`: eastward where it lies before it, westward where it
/// lies behind.
pub fn turn_towards(x: Real, x_min: Real, x_max: Real) -> (t: Turn)
    ensures
        t == (if x.below(x_min) {
            Turn::East
        } else if x_max.below(x) {
            Turn::West
        } else {
            Turn::Stay
        }),
{
    if x.lt(x_min) {
        Turn::East
    } else if x_max.lt(x) {
        Turn::West
    } else {
        Turn::Stay
    }
}

} // verus!
