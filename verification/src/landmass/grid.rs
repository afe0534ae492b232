//! The global cell grid, and sea routes over it.
//!
//! Columns run round the globe, rows from south to north. Cell `j * width + i`
//! stands in column `i` of row `j`.
use crate::given;
use crate::landmass::places;
use crate::landmass::astar;
use crate::landmass::distance;
use crate::landmass::snap;
use crate::landmass::ways;
use crate::number::Real;
use crate::number::Real32;
use vstd::prelude::*;

verus! {

/// Which side of the straight line between its ends a route should keep to.
#[derive(Clone, Copy, Debug, PartialEq, Eq, Structural)]
pub enum SeaPathBias {
    /// Either side.
    Unbiased,
    /// The north side.
    North,
    /// The south side.
    South,
}

/// How far a biased route may stray to the other side: the bit pattern of half a
/// degree of latitude.
pub const BIAS_BARRIER_SLACK_DEG: u64 = 0x3FE0_0000_0000_0000;

/// The same slack as a negative number.
pub const MINUS_SLACK_DEG: u64 = 0xBFE0_0000_0000_0000;

/// Whether a cell whose latitude is `offset` degrees above the line may be on a
/// route with the given bias.
pub open spec fn bias_admits(bias: SeaPathBias, offset: Real) -> bool {
    match bias {
        SeaPathBias::Unbiased => true,
        SeaPathBias::North => (Real { bits: MINUS_SLACK_DEG }).at_most(offset),
        SeaPathBias::South => offset.at_most(Real { bits: BIAS_BARRIER_SLACK_DEG }),
    }
}

/// Whether a cell whose latitude is `offset` degrees above the line may be on a
/// route with the given bias.
pub fn bias_allows(bias: SeaPathBias, offset: Real) -> (r: bool)
    ensures
        r == bias_admits(bias, offset),
{
    match bias {
        SeaPathBias::Unbiased => true,
        SeaPathBias::North => (Real { bits: MINUS_SLACK_DEG }).le(offset),
        SeaPathBias::South => offset.le(Real { bits: BIAS_BARRIER_SLACK_DEG }),
    }
}

/// Squared distances to the coast by cell, in cells: to the nearest water found
/// and negative over land, to the nearest land found and positive over water.
pub open spec fn coast_distances(land: Seq<bool>, w: int, wrap: bool) -> Seq<int> {
    let water = Seq::new(land.len(), |c: int| !land[c]);
    let h = land.len() as int / w;
    Seq::new(
        land.len(),
        |c: int|
            if land[c] {
                -distance::nearest_sq(water, w, h, wrap, c)
            } else {
                distance::nearest_sq(land, w, h, wrap, c)
            },
    )
}

/// Squared distances to the coast by cell, in cells, negative over land.
pub fn signed_dist_sq(mask: &[bool], width: usize, height: usize, lon_wrap: bool) -> (d: Vec<i64>)
    requires
        mask@.len() == width * height,
        width <= distance::MAX_SIDE,
        height <= distance::MAX_SIDE,
    ensures
        d@.len() == mask@.len(),
        forall|c: int|
            0 <= c < d@.len() ==> (#[trigger] d@[c]) == coast_distances(
                mask@,
                width as int,
                lon_wrap,
            )[c],
{
    let n: usize = mask.len();
    let to_land: Vec<(i32, i32)> = distance::distance_transform(mask, width, height, lon_wrap);
    let mut inverted: Vec<bool> = Vec::new();
    let mut k: usize = 0;
    while k < n
        invariant
            n == mask@.len(),
            k <= n,
            inverted@.len() == k,
            forall|c: int| 0 <= c < k ==> inverted@[c] == !mask@[c],
        decreases n - k,
    {
        inverted.push(!mask[k]);
        k += 1;
    }
    let ghost water = Seq::new(mask@.len(), |c: int| !mask@[c]);
    assert(inverted@ =~= water);
    let to_water: Vec<(i32, i32)> = distance::distance_transform(
        inverted.as_slice(),
        width,
        height,
        lon_wrap,
    );
    let mut d: Vec<i64> = Vec::new();
    let mut c: usize = 0;
    while c < n
        invariant
            n == mask@.len(),
            water == Seq::new(mask@.len(), |c: int| !mask@[c]),
            c <= n,
            d@.len() == c,
            to_land@.len() == n,
            to_water@.len() == n,
            n == width * height,
            forall|k: int|
                0 <= k < n ==> distance::nearest(
                    mask@,
                    width as int,
                    height as int,
                    lon_wrap,
                    k % width as int,
                    k / width as int,
                    ((#[trigger] to_land@[k]).0 as int, to_land@[k].1 as int),
                ),
            forall|k: int|
                0 <= k < n ==> !((#[trigger] to_land@[k]).0 == i32::MIN && to_land@[k].1 == i32::MIN),
            forall|k: int|
                0 <= k < n ==> distance::nearest(
                    water,
                    width as int,
                    height as int,
                    lon_wrap,
                    k % width as int,
                    k / width as int,
                    ((#[trigger] to_water@[k]).0 as int, to_water@[k].1 as int),
                ),
            forall|k: int|
                0 <= k < n ==> !((#[trigger] to_water@[k]).0 == i32::MIN && to_water@[k].1 == i32::MIN),
            forall|b: int|
                0 <= b < c ==> (#[trigger] d@[b]) == coast_distances(
                    mask@,
                    width as int,
                    lon_wrap,
                )[b],
        decreases n - c,
    {
        proof {
            assert(width > 0) by (nonlinear_arith)
                requires
                    c < width * height,
                    c >= 0,
                    height >= 0,
            ;
            vstd::arithmetic::div_mod::lemma_div_multiples_vanish(height as int, width as int);
            assert(mask@.len() as int / width as int == height);
            lemma_nearest_sq(mask@, width as int, height as int, lon_wrap, c as int, to_land@[c as int]);
            lemma_nearest_sq(water, width as int, height as int, lon_wrap, c as int, to_water@[c as int]);
        }
        if mask[c] {
            d.push(-distance::dist_sq(to_water[c]));
        } else {
            d.push(distance::dist_sq(to_land[c]));
        }
        c += 1;
    }
    d
}

/// The square of a nearest offset is the one that the cell has.
proof fn lemma_nearest_sq(seeds: Seq<bool>, w: int, h: int, wrap: bool, c: int, o: (i32, i32))
    requires
        0 <= c < w * h,
        w > 0,
        distance::nearest(seeds, w, h, wrap, c % w, c / w, (o.0 as int, o.1 as int)),
    ensures
        distance::nearest_sq(seeds, w, h, wrap, c) == distance::len_sq((o.0 as int, o.1 as int)),
{
    places::lemma_place_of_cell(w, h, c);
    let p = distance::nearest_offset(seeds, w, h, wrap, c % w, c / w);
    distance::law_nearest_is_one_distance(
        seeds,
        w,
        h,
        wrap,
        c % w,
        c / w,
        (o.0 as int, o.1 as int),
        p,
    );
}

/// The signed distance of a cell is negative over land and positive over water.
pub proof fn law_coast_distance_signs(land: Seq<bool>, w: int, h: int, wrap: bool, c: int)
    requires
        0 < w,
        0 < h,
        land.len() == w * h,
        0 <= c < land.len(),
    ensures
        land[c] ==> coast_distances(land, w, wrap)[c] < 0,
        !land[c] ==> coast_distances(land, w, wrap)[c] > 0,
{
    let water = Seq::new(land.len(), |c: int| !land[c]);
    let seeds = if land[c] {
        water
    } else {
        land
    };
    vstd::arithmetic::div_mod::lemma_div_multiples_vanish(h, w);
    assert(w * h == h * w) by (nonlinear_arith);
    places::lemma_place_of_cell(w, h, c);
    let (i, j) = (c % w, c / w);
    distance::lemma_some_nearest(seeds, w, h, wrap, i, j);
    let o = distance::nearest_offset(seeds, w, h, wrap, i, j);
    distance::law_only_seeds_are_near(seeds, w, h, wrap, i, j, o);
}

/// The column `i` counted round a grid `w` columns wide.
pub open spec fn wrapped(i: int, w: int) -> int {
    i % w
}

/// The three cells of row `j` nearest to column `i`, from west to east.
pub open spec fn three(w: int, i: int, j: int) -> Seq<int> {
    seq![j * w + wrapped(i - 1, w), j * w + i, j * w + wrapped(i + 1, w)]
}

/// The eight cells round the cell in column `i` of row `j`, row by row from the
/// south and from west to east. Columns wrap; rows beyond the poles are left out.
pub open spec fn around(w: int, h: int, i: int, j: int) -> Seq<int> {
    (if j > 0 {
        three(w, i, j - 1)
    } else {
        Seq::<int>::empty()
    }) + seq![j * w + wrapped(i - 1, w), j * w + wrapped(i + 1, w)] + (if j + 1 < h {
        three(w, i, j + 1)
    } else {
        Seq::<int>::empty()
    })
}

/// The distance to the coast at each cell, negative over land. `metres` tells a distance
/// in metres from its square in cells, with the same sign.
pub fn coast_metres<M: Fn(i64) -> Real32>(
    mask: &[bool],
    width: usize,
    height: usize,
    lon_wrap: bool,
    metres: &M,
) -> (sdf_m: Vec<Real32>)
    requires
        mask@.len() == width * height,
        width <= distance::MAX_SIDE,
        height <= distance::MAX_SIDE,
        given::settled1(*metres),
    ensures
        sdf_m@.len() == mask@.len(),
        forall|c: int|
            0 <= c < mask@.len() ==> #[trigger] sdf_m@[c] == given::gives1(
                *metres,
                coast_distances(mask@, width as int, lon_wrap)[c] as i64,
            ),
{
    let squares: Vec<i64> = signed_dist_sq(mask, width, height, lon_wrap);
    let mut sdf_m: Vec<Real32> = Vec::new();
    let mut c: usize = 0;
    while c < squares.len()
        invariant
            c <= squares@.len(),
            squares@.len() == mask@.len(),
            given::settled1(*metres),
            forall|k: int|
                0 <= k < squares@.len() ==> (#[trigger] squares@[k]) == coast_distances(
                    mask@,
                    width as int,
                    lon_wrap,
                )[k],
            sdf_m@.len() == c,
            forall|k: int|
                0 <= k < c ==> #[trigger] sdf_m@[k] == given::gives1(
                    *metres,
                    coast_distances(mask@, width as int, lon_wrap)[k] as i64,
                ),
        decreases squares@.len() - c,
    {
        sdf_m.push(metres(squares[c]));
        c += 1;
    }
    sdf_m
}

/// A cell grid with the signed distance to the coast at each cell.
pub struct LandmassGrid {
    pub width: usize,
    pub height: usize,
    /// Signed distance to the nearest coast in metres, by cell: negative over land.
    pub sdf_m: Vec<Real32>,
}

impl LandmassGrid {
    /// Whether there is a distance for every cell, and at least one cell.
    pub open spec fn wf(&self) -> bool {
        &&& self.width > 0
        &&& self.height > 0
        &&& self.sdf_m@.len() == self.width * self.height
    }

    /// Which cells are sea.
    pub open spec fn sea(&self) -> Seq<bool> {
        Seq::new(self.sdf_m@.len(), |c: int| (Real32 { bits: 0 }).at_most(self.sdf_m@[c]))
    }

    /// The cells that a cell leads to.
    pub open spec fn leads(&self) -> spec_fn(usize) -> Seq<usize> {
        |c: usize|
            around(
                self.width as int,
                self.height as int,
                c as int % self.width as int,
                c as int / self.width as int,
            ).map_values(|n: int| n as usize)
    }

    /// A grid from the signed distances of its cells.
    pub fn from_sdf(width: usize, height: usize, sdf_m: Vec<Real32>) -> (grid: LandmassGrid)
        requires
            width > 0,
            height > 0,
            sdf_m@.len() == width * height,
        ensures
            grid.wf(),
            grid.width == width,
            grid.height == height,
            grid.sdf_m@ == sdf_m@,
    {
        LandmassGrid { width, height, sdf_m }
    }

    /// A grid from which of its cells are land. `metres` tells a distance in metres from
    /// its square in cells, with the same sign.
    pub fn from_mask<M: Fn(i64) -> Real32>(mask: &[bool], width: usize, height: usize, metres: &M) -> (grid:
        LandmassGrid)
        requires
            0 < width <= distance::MAX_SIDE,
            0 < height <= distance::MAX_SIDE,
            mask@.len() == width * height,
            given::settled1(*metres),
        ensures
            grid.wf(),
            grid.width == width,
            grid.height == height,
            forall|c: int|
                0 <= c < mask@.len() ==> #[trigger] grid.sdf_m@[c] == given::gives1(
                    *metres,
                    coast_distances(mask@, width as int, true)[c] as i64,
                ),
    {
        let sdf_m = coast_metres(mask, width, height, true, metres);
        LandmassGrid { width, height, sdf_m }
    }

    /// Columns and rows.
    pub fn dims(&self) -> (d: (usize, usize))
        ensures
            d == (self.width, self.height),
    {
        (self.width, self.height)
    }

    /// The column that `i` is when counted round the grid.
    pub fn wrap_i(&self, i: isize) -> (r: usize)
        requires
            self.width > 0,
        ensures
            r == wrapped(i as int, self.width as int),
            r < self.width,
    {
        wrap_column(i, self.width)
    }

    /// The number of the cell in column `i` of row `j`.
    pub fn cell_idx(&self, i: usize, j: usize) -> (c: usize)
        requires
            self.wf(),
            i < self.width,
            j < self.height,
        ensures
            c == j * self.width + i,
            c < self.sdf_m@.len(),
    {
        let n: usize = self.sdf_m.len();
        proof {
            places::lemma_cell_place(self.width as int, self.height as int, i as int, j as int);
            assert(j * self.width + i < n);
        }
        j * self.width + i
    }

    /// The signed distance at the cell in column `i` of row `j`.
    pub fn sdf_at_cell(&self, i: usize, j: usize) -> (d: Real32)
        requires
            self.wf(),
            i < self.width,
            j < self.height,
        ensures
            d == self.sdf_m@[j * self.width + i],
    {
        let c: usize = self.cell_idx(i, j);
        self.sdf_m[c]
    }

    /// Whether the cell in column `i` of row `j` is sea.
    pub fn is_sea(&self, i: usize, j: usize) -> (r: bool)
        requires
            self.wf(),
            i < self.width,
            j < self.height,
        ensures
            r == self.sea()[j * self.width + i],
    {
        let c: usize = self.cell_idx(i, j);
        (Real32 { bits: 0 }).le(self.sdf_m[c])
    }

    /// The cell that contains a place `i` columns east of the first column's west
    /// edge and `j` rows north of the first row's south edge, both rounded down.
    /// Columns wrap; rows are clamped to the grid.
    pub fn cell_index_of(&self, i: isize, j: isize) -> (cell: (usize, usize))
        requires
            self.wf(),
        ensures
            cell.0 == wrapped(i as int, self.width as int),
            cell.1 == (if j < 0 {
                0
            } else if j >= self.height {
                self.height - 1
            } else {
                j as int
            }),
            cell.0 < self.width,
            cell.1 < self.height,
    {
        let col: usize = self.wrap_i(i);
        let row: usize = if j < 0 {
            0
        } else if j as usize >= self.height {
            self.height - 1
        } else {
            j as usize
        };
        (col, row)
    }

    /// The columns and rows of the four cells round a place whose south-west cell
    /// is `(i0, j0)`: `(west, east, south, north)`.
    pub fn corners_of(&self, i0: isize, j0: isize) -> (q: (usize, usize, usize, usize))
        requires
            self.wf(),
            i0 < isize::MAX,
        ensures
            q.0 == wrapped(i0 as int, self.width as int),
            q.1 == wrapped(i0 + 1, self.width as int),
            q.2 == (if j0 < 0 {
                0
            } else if j0 >= self.height {
                self.height - 1
            } else {
                j0 as int
            }),
            q.3 == (if q.2 + 1 < self.height {
                q.2 + 1
            } else {
                self.height - 1
            }),
    {
        let (west, south) = self.cell_index_of(i0, j0);
        let east: usize = self.wrap_i(i0 + 1);
        let north: usize = if south < self.height - 1 {
            south + 1
        } else {
            self.height - 1
        };
        (west, east, south, north)
    }

    /// The cells round cell `c`.
    pub fn neighbours_8(&self, c: usize) -> (list: Vec<usize>)
        requires
            self.wf(),
            c < self.sdf_m@.len(),
        ensures
            list@ == (self.leads())(c),
            forall|k: int| 0 <= k < list@.len() ==> list@[k] < self.sdf_m@.len(),
            self.width >= 3 ==> forall|b: usize|
                b < self.sdf_m@.len() ==> (#[trigger] list@.contains(b) <==> ways::touch(
                    self.width as int,
                    c as int,
                    b as int,
                )),
    {
        let list: Vec<usize> = neighbours_in(self.width, self.height, self.sdf_m.len(), c);
        proof {
            assert(list@ == (self.leads())(c));
            if self.width >= 3 {
                assert forall|b: usize| b < self.sdf_m@.len() implies (#[trigger] list@.contains(b)
                    <==> ways::touch(self.width as int, c as int, b as int)) by {
                    ways::law_cells_lead_to_those_they_touch(*self, c, b);
                }
            }
        }
        list
    }

    /// Which cells are sea, one entry per cell.
    fn sea_mask(&self) -> (mask: Vec<bool>)
        ensures
            mask@ == self.sea(),
    {
        let mut mask: Vec<bool> = Vec::new();
        let mut c: usize = 0;
        while c < self.sdf_m.len()
            invariant
                c <= self.sdf_m@.len(),
                mask@.len() == c,
                forall|b: int| 0 <= b < c ==> mask@[b] == self.sea()[b],
            decreases self.sdf_m@.len() - c,
        {
            mask.push((Real32 { bits: 0 }).le(self.sdf_m[c]));
            c += 1;
        }
        assert(mask@ =~= self.sea());
        mask
    }

    /// The neighbour lists of a grid stay in the grid.
    proof fn lemma_leads_in_grid(&self)
        requires
            self.wf(),
        ensures
            forall|a: usize, k: int|
                a < self.sdf_m@.len() && 0 <= k < (self.leads())(a).len() ==> (
                #[trigger] (self.leads())(a)[k]) < self.sdf_m@.len(),
    {
        let nb = self.leads();
        assert forall|a: usize, k: int|
            a < self.sdf_m@.len() && 0 <= k < nb(a).len() implies (#[trigger] nb(a)[k])
            < self.sdf_m@.len() by {
            lemma_around_in_grid(self.width as int, self.height as int, a as int);
            let s = around(
                self.width as int,
                self.height as int,
                a as int % self.width as int,
                a as int / self.width as int,
            );
            assert(0 <= s[k] < self.width * self.height);
        }
    }

    /// The nearest sea cell to cell `at`, in steps from neighbour to neighbour.
    pub fn snap_to_sea_cell(&self, at: usize) -> (found: Option<usize>)
        requires
            self.wf(),
            at < self.sdf_m@.len(),
        ensures
            found matches Some(c) ==> snap::snapped(self.leads(), self.sea(), at, c),
            found is None ==> snap::landlocked(snap::steps(self.leads()), self.sea(), at),
    {
        let mask: Vec<bool> = self.sea_mask();
        let neighbours = |c: usize| -> (list: Vec<usize>)
            requires
                self.wf(),
                c < self.sdf_m@.len(),
            ensures
                list@ == (self.leads())(c),
            { self.neighbours_8(c) };
        proof {
            self.lemma_leads_in_grid();
        }
        snap::snap_to_sea(mask.as_slice(), at, neighbours, Ghost(self.leads()))
    }
}

/// Which cells a route from `start` to `goal` may enter: sea cells that are
/// allowed, and the two ends.
pub open spec fn enterable<A: Fn(usize) -> bool>(
    sea: Seq<bool>,
    start: usize,
    goal: usize,
    allowed: A,
) -> spec_fn(usize) -> bool {
    |c: usize| sea[c as int] && (c == start || c == goal || call_ensures(allowed, (c,), true))
}

/// Whether `route` is what a search from `start` to `goal` gives: nothing where
/// the two are one, else the cells of a best route.
pub open spec fn route_found<
    A: Fn(usize) -> bool,
    X: Fn(Real, usize, usize) -> Real,
    R: Fn(Real, usize) -> Real,
>(
    nb: spec_fn(usize) -> Seq<usize>,
    sea: Seq<bool>,
    allowed: A,
    extend: X,
    rank: R,
    start: usize,
    goal: usize,
    route: Seq<usize>,
) -> bool {
    if start == goal {
        route.len() == 0
    } else {
        astar::best_route(
            astar::open_steps(nb, enterable(sea, start, goal, allowed)),
            astar::lengths(extend),
            astar::ranks(rank),
            sea.len() as int,
            start,
            goal,
            route,
        )
    }
}

/// Whether a sea route between the two cells is found to be impossible: one of
/// them has no sea near it, no route joins the sea cells nearest to them, or too many cells
/// come before the goal.
pub open spec fn route_missing<
    A: Fn(usize) -> bool,
    X: Fn(Real, usize, usize) -> Real,
    R: Fn(Real, usize) -> Real,
>(
    nb: spec_fn(usize) -> Seq<usize>,
    sea: Seq<bool>,
    allowed: A,
    extend: X,
    rank: R,
    from: usize,
    to: usize,
) -> bool {
    ||| snap::landlocked(snap::steps(nb), sea, from)
    ||| snap::landlocked(snap::steps(nb), sea, to)
    ||| exists|start: usize, goal: usize|
        #![trigger snap::snapped(nb, sea, from, start), snap::snapped(nb, sea, to, goal)]
        {
            &&& snap::snapped(nb, sea, from, start)
            &&& snap::snapped(nb, sea, to, goal)
            &&& start != goal
            &&& astar::no_route(
                astar::open_steps(nb, enterable(sea, start, goal, allowed)),
                astar::lengths(extend),
                astar::ranks(rank),
                sea.len() as int,
                start,
                goal,
            )
        }
}

/// Whether `route` joins sea cells nearest to the two cells.
pub open spec fn route_joins<
    A: Fn(usize) -> bool,
    X: Fn(Real, usize, usize) -> Real,
    R: Fn(Real, usize) -> Real,
>(
    nb: spec_fn(usize) -> Seq<usize>,
    sea: Seq<bool>,
    allowed: A,
    extend: X,
    rank: R,
    from: usize,
    to: usize,
    route: Seq<usize>,
) -> bool {
    exists|start: usize, goal: usize|
        #![trigger snap::snapped(nb, sea, from, start), snap::snapped(nb, sea, to, goal)]
        {
            &&& snap::snapped(nb, sea, from, start)
            &&& snap::snapped(nb, sea, to, goal)
            &&& route_found(nb, sea, allowed, extend, rank, start, goal, route)
        }
}

/// The sea cells of a route from cell `from` to cell `to` of a grid, both first
/// moved to the nearest sea.
///
/// `allowed` says which cells a route may visit besides its ends;
/// `extend(length, a, b)` is the length of a route of length `length` to cell
/// `a` made longer by the step to cell `b`; `rank(length, c)` says how promising
/// a route of that length to cell `c` is, the lower the better. Where both ends
/// are moved to one cell the route is empty.
pub fn astar_sea_path<
    A: Fn(usize) -> bool + Copy,
    X: Fn(Real, usize, usize) -> Real,
    R: Fn(Real, usize) -> Real,
>(grid: &LandmassGrid, from: usize, to: usize, allowed: A, extend: X, rank: R) -> (route: Option<
    Vec<usize>,
>)
    requires
        grid.wf(),
        grid.sdf_m@.len() <= u32::MAX,
        from < grid.sdf_m@.len(),
        to < grid.sdf_m@.len(),
        astar::decides(allowed, grid.sdf_m@.len() as int),
        astar::lengthens(extend, grid.sdf_m@.len() as int),
        astar::orders(rank, grid.sdf_m@.len() as int),
    ensures
        route matches Some(r) ==> route_joins(
            grid.leads(),
            grid.sea(),
            allowed,
            extend,
            rank,
            from,
            to,
            r@,
        ),
        route is None ==> route_missing(
            grid.leads(),
            grid.sea(),
            allowed,
            extend,
            rank,
            from,
            to,
        ),
{
    let start: usize = match grid.snap_to_sea_cell(from) {
        Some(c) => c,
        None => return None,
    };
    let goal: usize = match grid.snap_to_sea_cell(to) {
        Some(c) => c,
        None => return None,
    };
    if start == goal {
        let route: Vec<usize> = Vec::new();
        assert(route_found(grid.leads(), grid.sea(), allowed, extend, rank, start, goal, route@));
        return Some(route);
    }
    let ghost may = enterable(grid.sea(), start, goal, allowed);
    let mask: Vec<bool> = grid.sea_mask();
    let neighbours = |c: usize| -> (list: Vec<usize>)
        requires
            grid.wf(),
            c < grid.sdf_m@.len(),
        ensures
            list@ == (grid.leads())(c),
        { grid.neighbours_8(c) };
    let enter = |c: usize| -> (r: bool)
        requires
            c < mask@.len(),
            mask@ == grid.sea(),
            astar::decides(allowed, mask@.len() as int),
        ensures
            r == enterable(grid.sea(), start, goal, allowed)(c),
        { mask[c] && (c == start || c == goal || allowed(c)) };
    proof {
        grid.lemma_leads_in_grid();
    }
    astar::search_cells(
        mask.len(),
        start,
        goal,
        neighbours,
        enter,
        extend,
        rank,
        Ghost(grid.leads()),
        Ghost(may),
    )
}

/// The column that `i` is when counted round a grid `w` columns wide.
pub fn wrap_column(i: isize, w: usize) -> (r: usize)
    requires
        w > 0,
    ensures
        r == wrapped(i as int, w as int),
        r < w,
{
    if i >= 0 {
        (i as usize) % w
    } else {
        let below: usize = (-(i + 1)) as usize;
        let k: usize = below % w;
        proof {
            vstd::arithmetic::div_mod::lemma_fundamental_div_mod(below as int, w as int);
            let q = below as int / w as int;
            let m = w as int;
            assert(i == m * (-q - 1) + (m - 1 - k)) by (nonlinear_arith)
                requires
                    -(i + 1) == m * q + k,
            ;
            vstd::arithmetic::div_mod::lemma_fundamental_div_mod_converse(
                i as int,
                m,
                -q - 1,
                m - 1 - k,
            );
        }
        w - 1 - k
    }
}

/// The cells round a cell stand in the grid.
proof fn lemma_around_in_grid(w: int, h: int, c: int)
    requires
        w > 0,
        0 <= c < w * h,
    ensures
        forall|k: int|
            0 <= k < around(w, h, c % w, c / w).len() ==> 0 <= #[trigger] around(
                w,
                h,
                c % w,
                c / w,
            )[k] < w * h,
{
    places::lemma_place_of_cell(w, h, c);
    let i = c % w;
    let j = c / w;
    let a = wrapped(i - 1, w);
    let b = wrapped(i + 1, w);
    vstd::arithmetic::div_mod::lemma_mod_bound(i - 1, w);
    vstd::arithmetic::div_mod::lemma_mod_bound(i + 1, w);
    if j > 0 {
        places::lemma_cell_place(w, h, a, j - 1);
        places::lemma_cell_place(w, h, i, j - 1);
        places::lemma_cell_place(w, h, b, j - 1);
    }
    places::lemma_cell_place(w, h, a, j);
    places::lemma_cell_place(w, h, b, j);
    if j + 1 < h {
        places::lemma_cell_place(w, h, a, j + 1);
        places::lemma_cell_place(w, h, i, j + 1);
        places::lemma_cell_place(w, h, b, j + 1);
    }
}

/// The cells round a cell, by the number of the first cell of its row and the
/// columns beside it.
spec fn around_row(w: int, n: int, row: int, west: int, i: int, east: int) -> Seq<usize> {
    (if row >= w {
        seq![(row - w + west) as usize, (row - w + i) as usize, (row - w + east) as usize]
    } else {
        Seq::<usize>::empty()
    }) + seq![(row + west) as usize, (row + east) as usize] + (if n - row > w {
        seq![(row + w + west) as usize, (row + w + i) as usize, (row + w + east) as usize]
    } else {
        Seq::<usize>::empty()
    })
}

/// The cells round a cell can be told from the number of the first cell of its row.
proof fn lemma_around_row(w: int, h: int, c: int, west: int, east: int)
    requires
        w > 0,
        0 <= c < w * h,
        west == wrapped(c % w - 1, w),
        east == wrapped(c % w + 1, w),
    ensures
        around(w, h, c % w, c / w).map_values(|n: int| n as usize) == around_row(
            w,
            w * h,
            c - c % w,
            west,
            c % w,
            east,
        ),
{
    places::lemma_place_of_cell(w, h, c);
    let i = c % w;
    let j = c / w;
    places::lemma_row_bounds(w, h, i, j);
    places::lemma_cell_place(w, h, i, j);
    let row = c - i;
    assert(row == j * w);
    assert((j - 1) * w == row - w && (j + 1) * w == row + w) by (nonlinear_arith)
        requires
            row == j * w,
    ;
    let f = |n: int| n as usize;
    assert(three(w, i, j - 1) =~= seq![row - w + west, row - w + i, row - w + east]);
    assert(three(w, i, j + 1) =~= seq![row + w + west, row + w + i, row + w + east]);
    assert(around(w, h, i, j).map_values(f) =~= around_row(w, w * h, row, west, i, east));
}

/// The cells round a cell, given the first cell of its row and the columns beside it.
fn list_around(w: usize, n: usize, row: usize, west: usize, i: usize, east: usize) -> (list: Vec<
    usize,
>)
    requires
        west < w,
        i < w,
        east < w,
        row + w <= n,
        n - row > w ==> row + 2 * w <= n,
    ensures
        list@ == around_row(w as int, n as int, row as int, west as int, i as int, east as int),
        forall|k: int| 0 <= k < list@.len() ==> list@[k] < n,
{
    let mut list: Vec<usize> = Vec::new();
    if row >= w {
        let south: usize = row - w;
        list.push(south + west);
        list.push(south + i);
        list.push(south + east);
    }
    list.push(row + west);
    list.push(row + east);
    if n - row > w {
        let north: usize = row + w;
        list.push(north + west);
        list.push(north + i);
        list.push(north + east);
    }
    proof {
        assert(list@ =~= around_row(
            w as int,
            n as int,
            row as int,
            west as int,
            i as int,
            east as int,
        ));
    }
    list
}

/// The cells round cell `c` of a grid of `w` columns, `h` rows and `n` cells.
fn neighbours_in(w: usize, h: usize, n: usize, c: usize) -> (list: Vec<usize>)
    requires
        w > 0,
        n == w * h,
        c < n,
    ensures
        list@ == around(w as int, h as int, c as int % w as int, c as int / w as int).map_values(
            |n: int| n as usize,
        ),
        forall|k: int| 0 <= k < list@.len() ==> list@[k] < n,
{
    let i: usize = c % w;
    proof {
        vstd::arithmetic::div_mod::lemma_mod_decreases(c as nat, w as nat);
        vstd::arithmetic::div_mod::lemma_mod_bound(c as int, w as int);
    }
    let row: usize = c - i;
    let west: usize = if i > 0 {
        i - 1
    } else {
        w - 1
    };
    let east: usize = if i < w - 1 {
        i + 1
    } else {
        0
    };
    let ghost wi = w as int;
    let ghost hi = h as int;
    proof {
        assert(west == wrapped(i - 1, wi)) by {
            if i > 0 {
                vstd::arithmetic::div_mod::lemma_small_mod((i - 1) as nat, w as nat);
            } else {
                vstd::arithmetic::div_mod::lemma_fundamental_div_mod_converse(-1, wi, -1, wi - 1);
            }
        }
        assert(east == wrapped(i + 1, wi)) by {
            if i < w - 1 {
                vstd::arithmetic::div_mod::lemma_small_mod((i + 1) as nat, w as nat);
            } else {
                vstd::arithmetic::div_mod::lemma_mod_self_0(wi);
            }
        }
        lemma_around_row(wi, hi, c as int, west as int, east as int);
        places::lemma_place_of_cell(wi, hi, c as int);
        places::lemma_row_bounds(wi, hi, i as int, c as int / wi);
        places::lemma_row_end(wi, hi, i as int, c as int / wi);
    }
    list_around(w, n, row, west, i, east)
}

/// For the slope at the cell in column `i` of row `j`: the columns to the west
/// and east and the rows to the south and north that it is taken between.
/// Columns wrap or stop at the edge; rows stop at the edge.
pub fn slope_neighbours(width: usize, height: usize, lon_wrap: bool, i: usize, j: usize) -> (q: (
    usize,
    usize,
    usize,
    usize,
))
    requires
        i < width,
        j < height,
    ensures
        q.0 == (if lon_wrap {
            wrapped(i - 1, width as int)
        } else if i > 0 {
            i - 1
        } else {
            0
        }),
        q.1 == (if lon_wrap {
            wrapped(i + 1, width as int)
        } else if i + 1 < width {
            i + 1
        } else {
            i as int
        }),
        q.2 == (if j > 0 {
            j - 1
        } else {
            0
        }),
        q.3 == (if j + 1 < height {
            j + 1
        } else {
            j as int
        }),
{
    let ghost w = width as int;
    proof {
        if i > 0 {
            vstd::arithmetic::div_mod::lemma_small_mod((i - 1) as nat, width as nat);
        } else {
            vstd::arithmetic::div_mod::lemma_fundamental_div_mod_converse(-1, w, -1, w - 1);
        }
        if i < width - 1 {
            vstd::arithmetic::div_mod::lemma_small_mod((i + 1) as nat, width as nat);
        } else {
            vstd::arithmetic::div_mod::lemma_mod_self_0(w);
        }
    }
    let west: usize = if i > 0 {
        i - 1
    } else if lon_wrap {
        width - 1
    } else {
        0
    };
    let east: usize = if i < width - 1 {
        i + 1
    } else if lon_wrap {
        0
    } else {
        i
    };
    let south: usize = if j > 0 {
        j - 1
    } else {
        0
    };
    let north: usize = if j < height - 1 {
        j + 1
    } else {
        j
    };
    (west, east, south, north)
}

} // verus!
