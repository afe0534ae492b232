//! A coarse global grid with fine patches laid over it, as one graph of cells.
//!
//! The cells are numbered through: first those of the coarse grid, then those of
//! each fine patch in turn.
use crate::bounds::LonLatBbox;
use crate::given;
use crate::landmass::distance;
use crate::landmass::places;
use crate::landmass::astar;
use crate::landmass::grid;
use crate::landmass::grid::{coast_metres, LandmassGrid};
use crate::landmass::snap;
use crate::number::Real;
use crate::number::Real32;
use vstd::prelude::*;

verus! {

/// A rectangle of fine cells. Its first cell stands at the rectangle's south-west
/// corner; it does not wrap.
pub struct FinePatch {
    pub bbox: LonLatBbox,
    pub width: usize,
    pub height: usize,
    /// Signed distance to the nearest coast in metres, by cell: negative over land.
    pub sdf_m: Vec<Real32>,
}

impl FinePatch {
    /// Whether there is a distance for every cell, and at least one cell.
    pub open spec fn wf(&self) -> bool {
        &&& self.width > 0
        &&& self.height > 0
        &&& self.sdf_m@.len() == self.width * self.height
    }

    /// Which cells are sea.
    pub open spec fn sea(&self) -> Seq<bool> {
        Seq::new(self.sdf_m@.len(), |c: int| (Real32 { bits: 0 }).at_most(self.sdf_m@[c]))
    }

    /// A patch from the signed distances of its cells.
    pub fn from_sdf(bbox: LonLatBbox, width: usize, height: usize, sdf_m: Vec<Real32>) -> (p:
        FinePatch)
        requires
            width > 0,
            height > 0,
            sdf_m@.len() == width * height,
        ensures
            p.wf(),
            p.bbox == bbox,
            p.width == width,
            p.height == height,
            p.sdf_m@ == sdf_m@,
    {
        FinePatch { bbox, width, height, sdf_m }
    }

    /// A patch from which of its cells are land. `metres` tells a distance in metres from
    /// its square in cells, with the same sign.
    pub fn from_mask<M: Fn(i64) -> Real32>(
        bbox: LonLatBbox,
        mask: &[bool],
        width: usize,
        height: usize,
        metres: &M,
    ) -> (p: FinePatch)
        requires
            0 < width <= distance::MAX_SIDE,
            0 < height <= distance::MAX_SIDE,
            mask@.len() == width * height,
            given::settled1(*metres),
        ensures
            p.wf(),
            p.bbox == bbox,
            p.width == width,
            p.height == height,
            forall|c: int|
                0 <= c < mask@.len() ==> #[trigger] p.sdf_m@[c] == given::gives1(
                    *metres,
                    grid::coast_distances(mask@, width as int, false)[c] as i64,
                ),
    {
        let sdf_m = coast_metres(mask, width, height, false, metres);
        FinePatch { bbox, width, height, sdf_m }
    }

    /// The rectangle that the patch covers.
    pub fn bbox(&self) -> (b: LonLatBbox)
        ensures
            b == self.bbox,
    {
        self.bbox
    }

    /// The columns and rows of the four cells round a place whose south-west cell is
    /// `(i0, j0)`: `(west, east, south, north)`. They stop at the edges.
    pub fn corners_of(&self, i0: usize, j0: usize) -> (q: (usize, usize, usize, usize))
        requires
            self.wf(),
        ensures
            q.0 == (if i0 < self.width {
                i0 as int
            } else {
                self.width - 1
            }),
            q.1 == (if i0 + 1 < self.width {
                i0 + 1
            } else {
                self.width - 1
            }),
            q.2 == (if j0 < self.height {
                j0 as int
            } else {
                self.height - 1
            }),
            q.3 == (if j0 + 1 < self.height {
                j0 + 1
            } else {
                self.height - 1
            }),
    {
        let west: usize = if i0 < self.width { i0 } else { self.width - 1 };
        let south: usize = if j0 < self.height { j0 } else { self.height - 1 };
        let east: usize = if west < self.width - 1 { west + 1 } else { self.width - 1 };
        let north: usize = if south < self.height - 1 { south + 1 } else { self.height - 1 };
        (west, east, south, north)
    }

    /// Columns and rows.
    pub fn dims(&self) -> (d: (usize, usize))
        ensures
            d == (self.width, self.height),
    {
        (self.width, self.height)
    }

    /// The signed distance at the cell in column `i` of row `j`.
    pub fn sdf_at_cell(&self, i: usize, j: usize) -> (d: Real32)
        requires
            self.wf(),
            i < self.width,
            j < self.height,
        ensures
            d == self.sdf_m@[j * self.width + i],
    {
        let n: usize = self.sdf_m.len();
        proof {
            places::lemma_cell_place(self.width as int, self.height as int, i as int, j as int);
            assert(j * self.width + i < n);
        }
        self.sdf_m[j * self.width + i]
    }

    /// Whether the cell in column `i` of row `j` is sea.
    pub fn is_sea_cell(&self, i: usize, j: usize) -> (r: bool)
        requires
            self.wf(),
            i < self.width,
            j < self.height,
        ensures
            r == self.sea()[j * self.width + i],
    {
        proof {
            places::lemma_cell_place(self.width as int, self.height as int, i as int, j as int);
        }
        (Real32 { bits: 0 }).le(self.sdf_at_cell(i, j))
    }
}

/// A cell by its grid, column and row.
#[derive(Clone, Copy, Debug, PartialEq, Eq, Structural)]
pub enum TwoTierCell {
    /// A cell of the coarse grid.
    Coarse { i: usize, j: usize },
    /// A cell of a fine patch.
    Fine { patch: usize, i: usize, j: usize },
}

/// A coarse grid and the fine patches over it.
pub struct TwoTierLandmass {
    pub coarse: LandmassGrid,
    pub fine: Vec<FinePatch>,
    /// The number of the first cell of each patch, and after those the number of
    /// all cells.
    pub fine_offsets: Vec<usize>,
}

/// The number of coarse cells and of the cells of the first `k` patches.
pub open spec fn cells_before(coarse: nat, fine: Seq<FinePatch>, k: nat) -> nat
    decreases k,
{
    if k == 0 {
        coarse
    } else {
        cells_before(coarse, fine, (k - 1) as nat) + fine[k - 1].sdf_m@.len()
    }
}

/// Which cells are sea, of the coarse cells and those of the first `k` patches.
pub open spec fn sea_before(coarse: Seq<bool>, fine: Seq<FinePatch>, k: nat) -> Seq<bool>
    decreases k,
{
    if k == 0 {
        coarse
    } else {
        sea_before(coarse, fine, (k - 1) as nat) + fine[k - 1].sea()
    }
}

/// More patches hold no fewer cells.
proof fn lemma_cells_grow(coarse: nat, fine: Seq<FinePatch>, j: nat, k: nat)
    requires
        j <= k,
    ensures
        cells_before(coarse, fine, j) <= cells_before(coarse, fine, k),
    decreases k,
{
    if j < k {
        lemma_cells_grow(coarse, fine, j, (k - 1) as nat);
    }
}

/// The sea flags number the cells, and those of a patch stand at its offset.
proof fn lemma_sea_at(coarse: Seq<bool>, fine: Seq<FinePatch>, k: nat, c: int)
    requires
        0 <= c,
    ensures
        sea_before(coarse, fine, k).len() == cells_before(coarse.len(), fine, k),
        c < coarse.len() ==> sea_before(coarse, fine, k)[c] == coarse[c],
        forall|p: int|
            0 <= p < k && #[trigger] cells_before(coarse.len(), fine, p as nat) <= c < cells_before(
                coarse.len(),
                fine,
                (p + 1) as nat,
            ) ==> sea_before(coarse, fine, k)[c] == fine[p].sea()[c - cells_before(
                coarse.len(),
                fine,
                p as nat,
            )],
    decreases k,
{
    if k > 0 {
        let l = (k - 1) as nat;
        lemma_sea_at(coarse, fine, l, c);
        lemma_cells_grow(coarse.len(), fine, 0, l);
        assert forall|p: int|
            0 <= p < k && #[trigger] cells_before(coarse.len(), fine, p as nat) <= c < cells_before(
                coarse.len(),
                fine,
                (p + 1) as nat,
            ) implies sea_before(coarse, fine, k)[c] == fine[p].sea()[c - cells_before(
            coarse.len(),
            fine,
            p as nat,
        )] by {
            if p < l {
                lemma_cells_grow(coarse.len(), fine, (p + 1) as nat, l);
            }
        }
    }
}

impl TwoTierLandmass {
    /// Whether the parts are well-formed and the offsets are those of the parts.
    pub open spec fn wf(&self) -> bool {
        &&& self.coarse.wf()
        &&& forall|k: int| 0 <= k < self.fine@.len() ==> (#[trigger] self.fine@[k]).wf()
        &&& self.fine_offsets@.len() == self.fine@.len() + 1
        &&& forall|k: int|
            0 <= k <= self.fine@.len() ==> (#[trigger] self.fine_offsets@[k]) == cells_before(
                self.coarse.sdf_m@.len(),
                self.fine@,
                k as nat,
            )
    }

    /// The grid of the whole globe.
    pub fn coarse(&self) -> (g: &LandmassGrid)
        ensures
            *g == self.coarse,
    {
        &self.coarse
    }

    /// The finer patches.
    pub fn fine_patches(&self) -> (p: &Vec<FinePatch>)
        ensures
            *p == self.fine,
    {
        &self.fine
    }

    /// The number of all cells.
    pub open spec fn total(&self) -> nat {
        cells_before(self.coarse.sdf_m@.len(), self.fine@, self.fine@.len())
    }

    /// Which cells are sea.
    pub open spec fn sea(&self) -> Seq<bool> {
        sea_before(self.coarse.sea(), self.fine@, self.fine@.len())
    }

    /// Whether `cell` is a cell of one of the parts.
    pub open spec fn has(&self, cell: TwoTierCell) -> bool {
        match cell {
            TwoTierCell::Coarse { i, j } => i < self.coarse.width && j < self.coarse.height,
            TwoTierCell::Fine { patch, i, j } => patch < self.fine@.len() && i
                < self.fine@[patch as int].width && j < self.fine@[patch as int].height,
        }
    }

    /// The number of a cell.
    pub open spec fn number_of(&self, cell: TwoTierCell) -> int {
        match cell {
            TwoTierCell::Coarse { i, j } => j * self.coarse.width + i,
            TwoTierCell::Fine { patch, i, j } => cells_before(
                self.coarse.sdf_m@.len(),
                self.fine@,
                patch as nat,
            ) + j * self.fine@[patch as int].width + i,
        }
    }

    /// Lays `fine` patches over a `coarse` grid.
    pub fn new(coarse: LandmassGrid, fine: Vec<FinePatch>) -> (t: TwoTierLandmass)
        requires
            coarse.wf(),
            forall|k: int| 0 <= k < fine@.len() ==> (#[trigger] fine@[k]).wf(),
            cells_before(coarse.sdf_m@.len(), fine@, fine@.len()) <= usize::MAX,
        ensures
            t.wf(),
            t.coarse == coarse,
            t.fine@ == fine@,
    {
        let mut fine_offsets: Vec<usize> = Vec::new();
        let mut acc: usize = coarse.sdf_m.len();
        fine_offsets.push(acc);
        let mut k: usize = 0;
        while k < fine.len()
            invariant
                k <= fine@.len(),
                cells_before(coarse.sdf_m@.len(), fine@, fine@.len()) <= usize::MAX,
                acc == cells_before(coarse.sdf_m@.len(), fine@, k as nat),
                fine_offsets@.len() == k + 1,
                forall|m: int|
                    0 <= m <= k ==> (#[trigger] fine_offsets@[m]) == cells_before(
                        coarse.sdf_m@.len(),
                        fine@,
                        m as nat,
                    ),
            decreases fine@.len() - k,
        {
            proof {
                lemma_cells_grow(
                    coarse.sdf_m@.len(),
                    fine@,
                    (k + 1) as nat,
                    fine@.len(),
                );
            }
            acc = acc + fine[k].sdf_m.len();
            fine_offsets.push(acc);
            k += 1;
        }
        TwoTierLandmass { coarse, fine, fine_offsets }
    }

    /// The number of all cells.
    pub fn total_cells(&self) -> (n: usize)
        requires
            self.wf(),
        ensures
            n == self.total(),
    {
        self.fine_offsets[self.fine.len()]
    }

    /// The number of a cell.
    pub fn encode_cell(&self, cell: TwoTierCell) -> (c: usize)
        requires
            self.wf(),
            self.has(cell),
        ensures
            c == self.number_of(cell),
            c < self.total(),
    {
        match cell {
            TwoTierCell::Coarse { i, j } => {
                proof {
                    lemma_cells_grow(self.coarse.sdf_m@.len(), self.fine@, 0, self.fine@.len());
                }
                self.coarse.cell_idx(i, j)
            },
            TwoTierCell::Fine { patch, i, j } => {
                let parts: usize = self.fine_offsets.len();
                assert(patch + 1 < parts);
                let offset: usize = self.fine_offsets[patch];
                let after: usize = self.fine_offsets[patch + 1];
                let p: &FinePatch = &self.fine[patch];
                proof {
                    assert(self.fine@[patch as int].wf());
                    places::lemma_cell_place(
                        p.width as int,
                        p.height as int,
                        i as int,
                        j as int,
                    );
                    lemma_cells_grow(
                        self.coarse.sdf_m@.len(),
                        self.fine@,
                        (patch + 1) as nat,
                        self.fine@.len(),
                    );
                    assert(offset + (j * p.width + i) < after);
                    assert(0 <= j * p.width <= j * p.width + i);
                }
                offset + j * p.width + i
            },
        }
    }

    /// The cell with a given number.
    pub fn decode_cell(&self, c: usize) -> (cell: TwoTierCell)
        requires
            self.wf(),
            c < self.total(),
        ensures
            self.has(cell),
            self.number_of(cell) == c,
    {
        if c < self.fine_offsets[0] {
            let w: usize = self.coarse.width;
            proof {
                places::lemma_place_of_cell(w as int, self.coarse.height as int, c as int);
            }
            return TwoTierCell::Coarse { i: c % w, j: c / w };
        }
        let parts: usize = self.fine_offsets.len();
        let mut k: usize = 0;
        while c >= self.fine_offsets[k + 1]
            invariant
                parts == self.fine_offsets@.len(),
                self.wf(),
                c < self.total(),
                k < self.fine@.len(),
                self.fine_offsets@[k as int] <= c,
            decreases self.fine@.len() - k,
        {
            assert(k + 1 < self.fine@.len()) by {
                if k + 1 == self.fine@.len() {
                    assert(self.fine_offsets@[k + 1] == self.total());
                }
            }
            k += 1;
        }
        let w: usize = self.fine[k].width;
        let local: usize = c - self.fine_offsets[k];
        proof {
            assert(self.fine@[k as int].wf());
            assert(self.fine_offsets@[k + 1] == self.fine_offsets@[k as int]
                + self.fine@[k as int].sdf_m@.len());
            places::lemma_place_of_cell(
                w as int,
                self.fine@[k as int].height as int,
                local as int,
            );
        }
        TwoTierCell::Fine { patch: k, i: local % w, j: local / w }
    }

    /// Whether the cell with a given number is sea.
    pub fn is_sea_at_idx(&self, c: usize) -> (r: bool)
        requires
            self.wf(),
            c < self.total(),
        ensures
            r == self.sea()[c as int],
    {
        let cell: TwoTierCell = self.decode_cell(c);
        proof {
            lemma_sea_at(self.coarse.sea(), self.fine@, self.fine@.len(), c as int);
        }
        match cell {
            TwoTierCell::Coarse { i, j } => {
                proof {
                    places::lemma_cell_place(
                        self.coarse.width as int,
                        self.coarse.height as int,
                        i as int,
                        j as int,
                    );
                }
                self.coarse.is_sea(i, j)
            },
            TwoTierCell::Fine { patch, i, j } => {
                proof {
                    let p = self.fine@[patch as int];
                    assert(p.wf());
                    places::lemma_cell_place(
                        p.width as int,
                        p.height as int,
                        i as int,
                        j as int,
                    );
                    let before = cells_before(
                        self.coarse.sdf_m@.len(),
                        self.fine@,
                        patch as nat,
                    );
                    assert(cells_before(self.coarse.sdf_m@.len(), self.fine@, (patch + 1) as nat)
                        == before + p.sdf_m@.len());
                    assert(c - before == j * p.width + i);
                }
                self.fine[patch].is_sea_cell(i, j)
            },
        }
    }

    /// The patch that answers for a point: the first whose rectangle holds it.
    pub fn active_patch(&self, lon: Real, lat: Real) -> (found: Option<usize>)
        ensures
            found matches Some(k) ==> {
                &&& k < self.fine@.len()
                &&& self.fine@[k as int].bbox.holds(lon, lat)
                &&& forall|m: int| 0 <= m < k ==> !(#[trigger] self.fine@[m]).bbox.holds(lon, lat)
            },
            found is None ==> forall|m: int|
                0 <= m < self.fine@.len() ==> !(#[trigger] self.fine@[m]).bbox.holds(lon, lat),
    {
        let mut k: usize = 0;
        while k < self.fine.len()
            invariant
                k <= self.fine@.len(),
                forall|m: int| 0 <= m < k ==> !(#[trigger] self.fine@[m]).bbox.holds(lon, lat),
            decreases self.fine@.len() - k,
        {
            if self.fine[k].bbox.contains(lon, lat) {
                return Some(k);
            }
            k += 1;
        }
        None
    }

    /// Which cells are sea, one entry per cell.
    fn sea_mask(&self) -> (mask: Vec<bool>)
        requires
            self.wf(),
        ensures
            mask@ == self.sea(),
            mask@.len() == self.total(),
    {
        let n: usize = self.total_cells();
        let mut mask: Vec<bool> = Vec::new();
        let mut c: usize = 0;
        while c < n
            invariant
                self.wf(),
                n == self.total(),
                c <= n,
                mask@.len() == c,
                forall|b: int| 0 <= b < c ==> mask@[b] == self.sea()[b],
            decreases n - c,
        {
            mask.push(self.is_sea_at_idx(c));
            c += 1;
        }
        proof {
            lemma_sea_at(self.coarse.sea(), self.fine@, self.fine@.len(), 0);
            assert(mask@ =~= self.sea());
        }
        mask
    }
}

/// Different cells have different numbers, and every number below the total is
/// that of a cell.
pub proof fn law_cells_are_numbered_through(t: TwoTierLandmass, a: TwoTierCell, b: TwoTierCell)
    requires
        t.wf(),
        t.has(a),
        t.has(b),
    ensures
        0 <= t.number_of(a) < t.total(),
        t.number_of(a) == t.number_of(b) ==> a == b,
{
    lemma_number_range(t, a);
    lemma_number_range(t, b);
    if t.number_of(a) == t.number_of(b) {
        match (a, b) {
            (TwoTierCell::Coarse { .. }, TwoTierCell::Coarse { .. }) => {},
            (
                TwoTierCell::Fine { patch: p, i: i1, j: j1 },
                TwoTierCell::Fine { patch: q, i: i2, j: j2 },
            ) => {
                let n = t.coarse.sdf_m@.len();
                if p < q {
                    lemma_cells_grow(n, t.fine@, (p + 1) as nat, q as nat);
                } else if q < p {
                    lemma_cells_grow(n, t.fine@, (q + 1) as nat, p as nat);
                }
            },
            (TwoTierCell::Coarse { .. }, TwoTierCell::Fine { patch, .. }) => {
                lemma_cells_grow(t.coarse.sdf_m@.len(), t.fine@, 0, patch as nat);
            },
            (TwoTierCell::Fine { patch, .. }, TwoTierCell::Coarse { .. }) => {
                lemma_cells_grow(t.coarse.sdf_m@.len(), t.fine@, 0, patch as nat);
            },
        }
    }
}

/// Where a cell's number stands, and what its column and row are.
proof fn lemma_number_range(t: TwoTierLandmass, cell: TwoTierCell)
    requires
        t.wf(),
        t.has(cell),
    ensures
        0 <= t.number_of(cell) < t.total(),
        cell matches TwoTierCell::Coarse { i, j } ==> {
            &&& t.number_of(cell) < t.coarse.sdf_m@.len()
            &&& i == t.number_of(cell) % t.coarse.width as int
            &&& j == t.number_of(cell) / t.coarse.width as int
        },
        cell matches TwoTierCell::Fine { patch, i, j } ==> {
            let before = cells_before(t.coarse.sdf_m@.len(), t.fine@, patch as nat);
            &&& before <= t.number_of(cell) < cells_before(
                t.coarse.sdf_m@.len(),
                t.fine@,
                (patch + 1) as nat,
            )
            &&& i == (t.number_of(cell) - before) % t.fine@[patch as int].width as int
            &&& j == (t.number_of(cell) - before) / t.fine@[patch as int].width as int
        },
{
    match cell {
        TwoTierCell::Coarse { i, j } => {
            places::lemma_cell_place(
                t.coarse.width as int,
                t.coarse.height as int,
                i as int,
                j as int,
            );
            lemma_cells_grow(t.coarse.sdf_m@.len(), t.fine@, 0, t.fine@.len());
        },
        TwoTierCell::Fine { patch, i, j } => {
            let p = t.fine@[patch as int];
            assert(p.wf());
            places::lemma_cell_place(p.width as int, p.height as int, i as int, j as int);
            let before = cells_before(t.coarse.sdf_m@.len(), t.fine@, patch as nat);
            assert(t.number_of(cell) - before == j * p.width + i);
            lemma_cells_grow(
                t.coarse.sdf_m@.len(),
                t.fine@,
                (patch + 1) as nat,
                t.fine@.len(),
            );
        },
    }
}

/// The eight directions, as steps of columns and rows: row by row from the south
/// and from west to east.
pub open spec fn direction(k: int) -> (i32, i32) {
    if k == 0 {
        ((-1) as i32, (-1) as i32)
    } else if k == 1 {
        (0, (-1) as i32)
    } else if k == 2 {
        (1, (-1) as i32)
    } else if k == 3 {
        ((-1) as i32, 0)
    } else if k == 4 {
        (1, 0)
    } else if k == 5 {
        ((-1) as i32, 1)
    } else if k == 6 {
        (0, 1)
    } else {
        (1, 1)
    }
}

/// What `locate` answers for the cell in direction `k` from cell `c`.
pub open spec fn located<L: Fn(usize, i32, i32) -> Option<usize>>(locate: L, c: usize, k: int) -> Option<
    usize,
> {
    if exists|r: Option<usize>| #[trigger]
        call_ensures(locate, (c, direction(k).0, direction(k).1), r) {
        choose|r: Option<usize>| #[trigger]
            call_ensures(locate, (c, direction(k).0, direction(k).1), r)
    } else {
        None
    }
}

/// The cells that `locate` finds in the first `k` directions from cell `c`.
pub open spec fn located_in<L: Fn(usize, i32, i32) -> Option<usize>>(locate: L, c: usize, k: nat) -> Seq<
    usize,
>
    decreases k,
{
    if k == 0 {
        Seq::<usize>::empty()
    } else {
        match located(locate, c, k - 1) {
            Some(n) => located_in(locate, c, (k - 1) as nat).push(n),
            None => located_in(locate, c, (k - 1) as nat),
        }
    }
}

/// The cells round each cell, as `locate` finds them.
pub open spec fn round<L: Fn(usize, i32, i32) -> Option<usize>>(locate: L) -> spec_fn(
    usize,
) -> Seq<usize> {
    |c: usize| located_in(locate, c, 8)
}

/// Whether `locate` answers, for each of `n` cells and each direction, with one
/// of the cells or none, and the same at each call.
pub open spec fn locates<L: Fn(usize, i32, i32) -> Option<usize>>(locate: L, n: int) -> bool {
    &&& forall|c: usize, di: i32, dj: i32|
        c < n && -1 <= di <= 1 && -1 <= dj <= 1 ==> #[trigger] call_requires(locate, (c, di, dj))
    &&& forall|c: usize, di: i32, dj: i32, r: Option<usize>|
        c < n && #[trigger] call_ensures(locate, (c, di, dj), r) ==> (r matches Some(m) ==> m < n)
    &&& forall|c: usize, di: i32, dj: i32, r: Option<usize>, s: Option<usize>| #[trigger]
        call_ensures(locate, (c, di, dj), r) && #[trigger] call_ensures(locate, (c, di, dj), s) ==> r
            == s
}

/// What is located stands among the cells.
proof fn lemma_located_in_range<L: Fn(usize, i32, i32) -> Option<usize>>(
    locate: L,
    n: int,
    c: usize,
    k: nat,
)
    requires
        locates(locate, n),
        c < n,
    ensures
        forall|m: int|
            0 <= m < located_in(locate, c, k).len() ==> (#[trigger] located_in(locate, c, k)[m]) < n,
    decreases k,
{
    if k > 0 {
        lemma_located_in_range(locate, n, c, (k - 1) as nat);
        let front = located_in(locate, c, (k - 1) as nat);
        let all = located_in(locate, c, k);
        assert forall|m: int| 0 <= m < all.len() implies (#[trigger] all[m]) < n by {
            if m < front.len() {
                assert(all[m] == front[m]);
            } else {
                assert(located(locate, c, k - 1) == Some(all[m]));
            }
        }
    }
}

/// The cells round cell `c`, in the order of the directions.
pub fn neighbour_cells<L: Fn(usize, i32, i32) -> Option<usize>>(c: usize, locate: L, n_cells: usize) -> (list:
    Vec<usize>)
    requires
        c < n_cells,
        locates(locate, n_cells as int),
    ensures
        list@ == round(locate)(c),
        forall|k: int| 0 <= k < list@.len() ==> list@[k] < n_cells,
{
    let mut list: Vec<usize> = Vec::new();
    let mut k: usize = 0;
    let mut dj: i32 = -1;
    while dj <= 1
        invariant
            c < n_cells,
            locates(locate, n_cells as int),
            -1 <= dj <= 2,
            k == (if dj == -1 {
                0
            } else if dj == 0 {
                3
            } else if dj == 1 {
                5
            } else {
                8int
            }),
            list@ == located_in(locate, c, k as nat),
        decreases 2 - dj,
    {
        let mut di: i32 = -1;
        while di <= 1
            invariant
                c < n_cells,
                locates(locate, n_cells as int),
                -1 <= dj <= 1,
                -1 <= di <= 2,
                k == (if dj == -1 {
                    di + 1
                } else if dj == 0 {
                    if di <= 0 {
                        4 + di
                    } else {
                        3 + di
                    }
                } else {
                    6 + di
                }),
                list@ == located_in(locate, c, k as nat),
            decreases 2 - di,
        {
            if di != 0 || dj != 0 {
                let found: Option<usize> = locate(c, di, dj);
                proof {
                    assert(direction(k as int) == (di, dj));
                    assert(located(locate, c, k as int) == found);
                }
                if let Some(n) = found {
                    list.push(n);
                }
                k += 1;
            }
            di += 1;
        }
        dj += 1;
    }
    proof {
        lemma_located_in_range(locate, n_cells as int, c, 8);
    }
    list
}

/// The nearest sea cell to cell `at`, in steps from neighbour to neighbour.
pub fn snap_to_sea_cell_two_tier<L: Fn(usize, i32, i32) -> Option<usize> + Copy>(
    two_tier: &TwoTierLandmass,
    at: usize,
    locate: L,
) -> (found: Option<usize>)
    requires
        two_tier.wf(),
        at < two_tier.total(),
        locates(locate, two_tier.total() as int),
    ensures
        found matches Some(c) ==> snap::snapped(
            round(locate),
            two_tier.sea(),
            at,
            c,
        ),
        found is None ==> snap::landlocked(snap::steps(round(locate)), two_tier.sea(), at),
{
    let mask: Vec<bool> = two_tier.sea_mask();
    let n: usize = mask.len();
    let neighbours = |c: usize| -> (list: Vec<usize>)
        requires
            c < n,
            locates(locate, n as int),
        ensures
            list@ == round(locate)(c),
        { neighbour_cells(c, locate, n) };
    proof {
        lemma_round_in_range(locate, n as int);
    }
    snap::snap_to_sea(mask.as_slice(), at, neighbours, Ghost(round(locate)))
}

/// The cells round a cell stand among the cells.
proof fn lemma_round_in_range<L: Fn(usize, i32, i32) -> Option<usize>>(locate: L, n: int)
    requires
        locates(locate, n),
    ensures
        forall|a: usize, k: int|
            a < n && 0 <= k < round(locate)(a).len() ==> (#[trigger] round(locate)(a)[k]) < n,
{
    let nb = round(locate);
    assert forall|a: usize, k: int| a < n && 0 <= k < nb(a).len() implies (#[trigger] nb(a)[k]) < n by {
        lemma_located_in_range(locate, n, a, 8);
    }
}

/// The sea cells of a route from cell `from` to cell `to`, both first moved to
/// the nearest sea.
///
/// `locate(c, di, dj)` is the cell that holds the point `di` cells east and `dj`
/// cells north of the centre of cell `c`, in cells of the size of `c`, or none
/// beyond a pole. `allowed`, `extend` and `rank` are as for the single grid.
pub fn astar_sea_path_two_tier<
    L: Fn(usize, i32, i32) -> Option<usize> + Copy,
    A: Fn(usize) -> bool + Copy,
    X: Fn(Real, usize, usize) -> Real,
    R: Fn(Real, usize) -> Real,
>(
    two_tier: &TwoTierLandmass,
    from: usize,
    to: usize,
    locate: L,
    allowed: A,
    extend: X,
    rank: R,
) -> (route: Option<Vec<usize>>)
    requires
        two_tier.wf(),
        two_tier.total() <= u32::MAX,
        from < two_tier.total(),
        to < two_tier.total(),
        locates(locate, two_tier.total() as int),
        astar::decides(allowed, two_tier.total() as int),
        astar::lengthens(extend, two_tier.total() as int),
        astar::orders(rank, two_tier.total() as int),
    ensures
        route matches Some(r) ==> grid::route_joins(
            round(locate),
            two_tier.sea(),
            allowed,
            extend,
            rank,
            from,
            to,
            r@,
        ),
        route is None ==> grid::route_missing(
            round(locate),
            two_tier.sea(),
            allowed,
            extend,
            rank,
            from,
            to,
        ),
{
    let start: usize = match snap_to_sea_cell_two_tier(two_tier, from, locate) {
        Some(c) => c,
        None => return None,
    };
    let goal: usize = match snap_to_sea_cell_two_tier(two_tier, to, locate) {
        Some(c) => c,
        None => return None,
    };
    if start == goal {
        let route: Vec<usize> = Vec::new();
        assert(grid::route_found(
            round(locate),
            two_tier.sea(),
            allowed,
            extend,
            rank,
            start,
            goal,
            route@,
        ));
        return Some(route);
    }
    let mask: Vec<bool> = two_tier.sea_mask();
    let n: usize = mask.len();
    let ghost may = grid::enterable(two_tier.sea(), start, goal, allowed);
    let neighbours = |c: usize| -> (list: Vec<usize>)
        requires
            c < n,
            locates(locate, n as int),
        ensures
            list@ == round(locate)(c),
        { neighbour_cells(c, locate, n) };
    let enter = |c: usize| -> (r: bool)
        requires
            c < mask@.len(),
            mask@ == two_tier.sea(),
            astar::decides(allowed, mask@.len() as int),
        ensures
            r == grid::enterable(two_tier.sea(), start, goal, allowed)(c),
        { mask[c] && (c == start || c == goal || allowed(c)) };
    proof {
        lemma_round_in_range(locate, n as int);
    }
    astar::search_cells(
        n,
        start,
        goal,
        neighbours,
        enter,
        extend,
        rank,
        Ghost(round(locate)),
        Ghost(may),
    )
}

} // verus!
