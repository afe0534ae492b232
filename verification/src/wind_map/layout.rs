//! Regular grids among scattered rows.
use crate::axes;
use crate::given;
use crate::landmass::walk;
use crate::number::Real32;
use crate::wind_map::WeatherRow;
use vstd::prelude::*;

verus! {

/// A regular grid: column `i` of row `j` lies `i` and `j` steps from the origin,
/// and is stored at place `i * ny + j`.
#[derive(Clone, Copy, Debug, PartialEq, Eq, Structural)]
pub struct GridLayout {
    /// The longitude of the first column.
    pub origin_x: Real32,
    /// The latitude of the first row.
    pub origin_y: Real32,
    /// Degrees between columns.
    pub step_x: Real32,
    /// Degrees between rows.
    pub step_y: Real32,
    /// How many columns there are.
    pub nx: usize,
    /// How many rows there are.
    pub ny: usize,
}

/// The longitudes of rows.
pub open spec fn lons(rows: Seq<WeatherRow>) -> Seq<Real32> {
    Seq::new(rows.len(), |k: int| rows[k].lon)
}

/// The latitudes of rows.
pub open spec fn lats(rows: Seq<WeatherRow>) -> Seq<Real32> {
    Seq::new(rows.len(), |k: int| rows[k].lat)
}

/// Whether a distance is one that columns or rows can be apart.
pub open spec fn is_step(s: Real32) -> bool {
    s.finite() && (Real32 { bits: 0 }).below(s)
}

/// Whether neighbours of an axis are all as far apart as the step.
pub open spec fn evenly<E: Fn(Real32, Real32, Real32) -> bool>(
    even: E,
    axis: Seq<Real32>,
    step: Real32,
) -> bool {
    forall|k: int| 0 <= k < axis.len() - 1 ==> even_at(even, axis, step, k)
}

/// Whether the neighbours at place `k` are as far apart as the step.
pub open spec fn even_at<E: Fn(Real32, Real32, Real32) -> bool>(
    even: E,
    axis: Seq<Real32>,
    step: Real32,
    k: int,
) -> bool {
    given::gives3(even, axis[k], axis[k + 1], step)
}

/// The column and the row of a point, where it lies on the grid.
pub open spec fn cell_of<C: Fn(Real32, Real32, Real32) -> Option<usize>>(
    cell: C,
    l: GridLayout,
    row: WeatherRow,
) -> Option<(usize, usize)> {
    match (
        given::gives3(cell, row.lon, l.origin_x, l.step_x),
        given::gives3(cell, row.lat, l.origin_y, l.step_y),
    ) {
        (Some(i), Some(j)) if i < l.nx && j < l.ny => Some((i, j)),
        _ => None,
    }
}

/// The place at which a point of the grid is stored.
pub open spec fn slot_of<C: Fn(Real32, Real32, Real32) -> Option<usize>>(
    cell: C,
    l: GridLayout,
    row: WeatherRow,
) -> int {
    let c = cell_of(cell, l, row)->Some_0;
    c.0 * l.ny + c.1
}

/// Whether rows fill a grid: there are as many as cells, each lies on a cell, and
/// no two on the same.
pub open spec fn fills<C: Fn(Real32, Real32, Real32) -> Option<usize>>(
    cell: C,
    l: GridLayout,
    rows: Seq<WeatherRow>,
) -> bool {
    &&& rows.len() == l.nx * l.ny
    &&& l.nx >= 1
    &&& l.ny >= 1
    &&& forall|k: int| 0 <= k < rows.len() ==> cell_of(cell, l, #[trigger] rows[k]) is Some
    &&& forall|i: int, j: int|
        0 <= i < j < rows.len() ==> slot_of(cell, l, #[trigger] rows[i]) != slot_of(
            cell,
            l,
            #[trigger] rows[j],
        )
}

/// The grid that rows with these axes would lie on.
pub open spec fn candidate<M: Fn(Real32, Real32) -> Real32>(
    minus: M,
    xs: Seq<Real32>,
    ys: Seq<Real32>,
) -> GridLayout {
    GridLayout {
        origin_x: xs[0],
        origin_y: ys[0],
        step_x: given::gives2(minus, xs[1], xs[0]),
        step_y: given::gives2(minus, ys[1], ys[0]),
        nx: xs.len() as usize,
        ny: ys.len() as usize,
    }
}

/// Whether rows lie on a regular grid of at least two columns and two rows and
/// fill it.
pub open spec fn gridded<
    M: Fn(Real32, Real32) -> Real32,
    E: Fn(Real32, Real32, Real32) -> bool,
    C: Fn(Real32, Real32, Real32) -> Option<usize>,
>(minus: M, even: E, cell: C, rows: Seq<WeatherRow>) -> bool {
    let xs = axes::axis_of(lons(rows));
    let ys = axes::axis_of(lats(rows));
    let l = candidate(minus, xs, ys);
    &&& axes::all_numbers(lons(rows))
    &&& axes::all_numbers(lats(rows))
    &&& xs.len() >= 2
    &&& ys.len() >= 2
    &&& xs.len() * ys.len() == rows.len()
    &&& is_step(l.step_x)
    &&& is_step(l.step_y)
    &&& evenly(even, xs, l.step_x)
    &&& evenly(even, ys, l.step_y)
    &&& fills(cell, l, rows)
}

/// The regular grid that rows lie on and fill, if there is one.
pub open spec fn layout_of<
    M: Fn(Real32, Real32) -> Real32,
    E: Fn(Real32, Real32, Real32) -> bool,
    C: Fn(Real32, Real32, Real32) -> Option<usize>,
>(minus: M, even: E, cell: C, rows: Seq<WeatherRow>) -> Option<GridLayout> {
    if gridded(minus, even, cell, rows) {
        Some(candidate(minus, axes::axis_of(lons(rows)), axes::axis_of(lats(rows))))
    } else {
        None
    }
}

/// Rows in another order have the same longitudes and the same latitudes.
proof fn lemma_same_coordinates(rows: Seq<WeatherRow>, other: Seq<WeatherRow>)
    requires
        forall|r: WeatherRow| rows.contains(r) <==> other.contains(r),
    ensures
        forall|x: Real32| lons(rows).contains(x) ==> lons(other).contains(x),
        forall|x: Real32| lats(rows).contains(x) ==> lats(other).contains(x),
        axes::all_numbers(lons(rows)) ==> axes::all_numbers(lons(other)),
        axes::all_numbers(lats(rows)) ==> axes::all_numbers(lats(other)),
{
    assert forall|x: Real32| lons(rows).contains(x) implies lons(other).contains(x) by {
        let k = choose|k: int| 0 <= k < rows.len() && lons(rows)[k] == x;
        assert(rows.contains(rows[k]));
        let m = choose|m: int| 0 <= m < other.len() && other[m] == rows[k];
        assert(lons(other)[m] == x);
    }
    assert forall|x: Real32| lats(rows).contains(x) implies lats(other).contains(x) by {
        let k = choose|k: int| 0 <= k < rows.len() && lats(rows)[k] == x;
        assert(rows.contains(rows[k]));
        let m = choose|m: int| 0 <= m < other.len() && other[m] == rows[k];
        assert(lats(other)[m] == x);
    }
    assert forall|m: int| 0 <= m < other.len() implies exists|k: int|
        0 <= k < rows.len() && #[trigger] rows[k] == #[trigger] other[m] by {
        assert(other.contains(other[m]));
    }
    if axes::all_numbers(lons(rows)) {
        assert forall|m: int| 0 <= m < other.len() implies !(#[trigger] lons(other)[m]).nan() by {
            let k = choose|k: int| 0 <= k < rows.len() && #[trigger] rows[k] == other[m];
            assert(!lons(rows)[k].nan());
        }
    }
    if axes::all_numbers(lats(rows)) {
        assert forall|m: int| 0 <= m < other.len() implies !(#[trigger] lats(other)[m]).nan() by {
            let k = choose|k: int| 0 <= k < rows.len() && #[trigger] rows[k] == other[m];
            assert(!lats(rows)[k].nan());
        }
    }
}

/// Rows that fill a grid fill it in every order.
proof fn lemma_fills_in_any_order<C: Fn(Real32, Real32, Real32) -> Option<usize>>(
    cell: C,
    l: GridLayout,
    rows: Seq<WeatherRow>,
    other: Seq<WeatherRow>,
)
    requires
        rows.to_multiset() == other.to_multiset(),
        fills(cell, l, rows),
    ensures
        fills(cell, l, other),
{
    rows.to_multiset_ensures();
    other.to_multiset_ensures();
    assert(rows.no_duplicates()) by {
        assert forall|i: int, j: int| 0 <= i < rows.len() && 0 <= j < rows.len() && i != j implies rows[i]
            != rows[j] by {
            if i < j {
                assert(slot_of(cell, l, rows[i]) != slot_of(cell, l, rows[j]));
            } else {
                assert(slot_of(cell, l, rows[j]) != slot_of(cell, l, rows[i]));
            }
        }
    }
    rows.lemma_multiset_has_no_duplicates();
    other.lemma_multiset_has_no_duplicates_conv();
    assert forall|m: int| 0 <= m < other.len() implies rows.contains(#[trigger] other[m]) by {
        assert(other.contains(other[m]));
        assert(rows.to_multiset().count(other[m]) > 0);
    }
    assert forall|m: int| 0 <= m < other.len() implies cell_of(cell, l, #[trigger] other[m]) is Some by {
        assert(rows.contains(other[m]));
        let k = choose|k: int| 0 <= k < rows.len() && rows[k] == other[m];
        assert(cell_of(cell, l, rows[k]) is Some);
    }
    assert forall|i: int, j: int| 0 <= i < j < other.len() implies slot_of(
        cell,
        l,
        #[trigger] other[i],
    ) != slot_of(cell, l, #[trigger] other[j]) by {
        assert(rows.contains(other[i]) && rows.contains(other[j]));
        let a = choose|a: int| 0 <= a < rows.len() && rows[a] == other[i];
        let b = choose|b: int| 0 <= b < rows.len() && rows[b] == other[j];
        assert(other[i] != other[j]);
        if a < b {
            assert(slot_of(cell, l, rows[a]) != slot_of(cell, l, rows[b]));
        } else {
            assert(slot_of(cell, l, rows[b]) != slot_of(cell, l, rows[a]));
        }
    }
}

/// The order of the rows does not matter to the grid that they are found to lie on,
/// where no axis has both zeros.
pub proof fn law_layout_ignores_order<
    M: Fn(Real32, Real32) -> Real32,
    E: Fn(Real32, Real32, Real32) -> bool,
    C: Fn(Real32, Real32, Real32) -> Option<usize>,
>(minus: M, even: E, cell: C, rows: Seq<WeatherRow>, other: Seq<WeatherRow>)
    requires
        rows.to_multiset() == other.to_multiset(),
        axes::single(lons(rows)),
        axes::single(lats(rows)),
    ensures
        layout_of(minus, even, cell, rows) == layout_of(minus, even, cell, other),
{
    rows.to_multiset_ensures();
    other.to_multiset_ensures();
    assert forall|r: WeatherRow| rows.contains(r) <==> other.contains(r) by {
        vstd::seq_lib::to_multiset_contains(rows, r);
        vstd::seq_lib::to_multiset_contains(other, r);
    }
    lemma_same_coordinates(rows, other);
    lemma_same_coordinates(other, rows);
    if axes::all_numbers(lons(rows)) && axes::all_numbers(lats(rows)) {
        axes::law_axis_ignores_order(lons(rows), lons(other));
        axes::law_axis_ignores_order(lats(rows), lats(other));
        let l = candidate(minus, axes::axis_of(lons(rows)), axes::axis_of(lats(rows)));
        if fills(cell, l, rows) {
            lemma_fills_in_any_order(cell, l, rows, other);
        }
        if fills(cell, l, other) {
            lemma_fills_in_any_order(cell, l, other, rows);
        }
    }
}

/// A grid that is found has at least two columns and two rows, steps above 0, and its
/// origin at the least longitude and the least latitude; and each of its cells has one
/// of the rows, of which there are as many as cells.
pub proof fn law_found_grid_is_whole<
    M: Fn(Real32, Real32) -> Real32,
    E: Fn(Real32, Real32, Real32) -> bool,
    C: Fn(Real32, Real32, Real32) -> Option<usize>,
>(minus: M, even: E, cell: C, rows: Seq<WeatherRow>, l: GridLayout)
    requires
        layout_of(minus, even, cell, rows) == Some(l),
        rows.len() <= usize::MAX,
    ensures
        l.nx >= 2,
        l.ny >= 2,
        l.nx * l.ny == rows.len(),
        rows.len() >= 4,
        is_step(l.step_x),
        is_step(l.step_y),
        lons(rows).contains(l.origin_x),
        lats(rows).contains(l.origin_y),
        forall|k: int| 0 <= k < rows.len() ==> l.origin_x.at_most((#[trigger] rows[k]).lon),
        forall|k: int| 0 <= k < rows.len() ==> l.origin_y.at_most((#[trigger] rows[k]).lat),
        forall|s: int| 0 <= s < rows.len() ==> taken(cell, l, rows, rows.len() as int, s),
{
    let xs = axes::axis_of(lons(rows));
    let ys = axes::axis_of(lats(rows));
    axes::lemma_axis(lons(rows));
    axes::lemma_axis(lats(rows));
    assert(xs.len() <= rows.len() && ys.len() <= rows.len()) by (nonlinear_arith)
        requires
            xs.len() >= 2,
            ys.len() >= 2,
            xs.len() * ys.len() == rows.len(),
    ;
    assert(rows.len() >= 4) by (nonlinear_arith)
        requires
            xs.len() >= 2,
            ys.len() >= 2,
            xs.len() * ys.len() == rows.len(),
    ;
    assert(axes::leads(lons(rows), xs[0]));
    assert(axes::leads(lats(rows), ys[0]));
    assert forall|k: int| 0 <= k < rows.len() implies l.origin_x.at_most((#[trigger] rows[k]).lon) by {
        assert(axes::on_axis(xs, lons(rows)[k]));
        let m = choose|m: int| 0 <= m < xs.len() && (#[trigger] xs[m]).equals(lons(rows)[k]);
        if m > 0 {
            assert(xs[0].below(xs[m]));
        }
    }
    assert forall|k: int| 0 <= k < rows.len() implies l.origin_y.at_most((#[trigger] rows[k]).lat) by {
        assert(axes::on_axis(ys, lats(rows)[k]));
        let m = choose|m: int| 0 <= m < ys.len() && (#[trigger] ys[m]).equals(lats(rows)[k]);
        if m > 0 {
            assert(ys[0].below(ys[m]));
        }
    }
    let n = rows.len() as int;
    let slots = Seq::new(rows.len(), |k: int| slot_of(cell, l, rows[k]));
    assert forall|k: int| 0 <= k < n implies 0 <= #[trigger] slots[k] < n by {
        assert(cell_of(cell, l, rows[k]) is Some);
        let c = cell_of(cell, l, rows[k])->Some_0;
        lemma_slot(c.0 as int, c.1 as int, l.nx as int, l.ny as int);
    }
    assert(slots.no_duplicates()) by {
        assert forall|i: int, j: int| 0 <= i < n && 0 <= j < n && i != j implies slots[i] != slots[j] by {
            if i < j {
                assert(slot_of(cell, l, rows[i]) != slot_of(cell, l, rows[j]));
            } else {
                assert(slot_of(cell, l, rows[j]) != slot_of(cell, l, rows[i]));
            }
        }
    }
    slots.unique_seq_to_set();
    vstd::set_lib::lemma_int_range(0, n);
    let all = vstd::set_lib::set_int_range(0, n);
    assert(slots.to_set().subset_of(all));
    vstd::seq_lib::seq_to_set_is_finite(slots);
    vstd::set_lib::lemma_subset_equality(slots.to_set(), all);
    assert forall|s: int| 0 <= s < n implies taken(cell, l, rows, n, s) by {
        assert(all.contains(s));
        assert(slots.to_set().contains(s));
        let k = choose|k: int| 0 <= k < slots.len() && slots[k] == s;
        assert(slot_of(cell, l, rows[k]) == s);
    }
}

/// The longitudes and latitudes of rows, where none is NaN.
fn coordinates(rows: &Vec<WeatherRow>) -> (c: Option<(Vec<Real32>, Vec<Real32>)>)
    ensures
        c is Some <==> axes::all_numbers(lons(rows@)) && axes::all_numbers(lats(rows@)),
        c matches Some((xs, ys)) ==> xs@ == lons(rows@) && ys@ == lats(rows@),
{
    let mut xs: Vec<Real32> = Vec::new();
    let mut ys: Vec<Real32> = Vec::new();
    let mut k: usize = 0;
    while k < rows.len()
        invariant
            k <= rows@.len(),
            xs@ == lons(rows@).take(k as int),
            ys@ == lats(rows@).take(k as int),
            forall|i: int| 0 <= i < k ==> !lons(rows@)[i].nan() && !lats(rows@)[i].nan(),
        decreases rows@.len() - k,
    {
        let row: WeatherRow = rows[k];
        assert(lons(rows@)[k as int] == row.lon);
        assert(lats(rows@)[k as int] == row.lat);
        if row.lon.is_nan() || row.lat.is_nan() {
            return None;
        }
        xs.push(row.lon);
        ys.push(row.lat);
        assert(xs@ =~= lons(rows@).take(k + 1));
        assert(ys@ =~= lats(rows@).take(k + 1));
        k += 1;
    }
    assert(lons(rows@).take(k as int) =~= lons(rows@));
    assert(lats(rows@).take(k as int) =~= lats(rows@));
    Some((xs, ys))
}

/// Whether neighbours of an axis are all as far apart as the step.
fn is_evenly<E: Fn(Real32, Real32, Real32) -> bool>(even: &E, axis: &Vec<Real32>, step: Real32) -> (r:
    bool)
    requires
        given::settled3(*even),
    ensures
        r == evenly(*even, axis@, step),
{
    let mut k: usize = 1;
    while k < axis.len()
        invariant
            1 <= k,
            k <= axis@.len() || axis@.len() == 0,
            given::settled3(*even),
            forall|i: int| 0 <= i < k - 1 ==> even_at(*even, axis@, step, i),
        decreases axis@.len() - k,
    {
        let r: bool = even(axis[k - 1], axis[k], step);
        assert(r == even_at(*even, axis@, step, k - 1));
        if !r {
            return false;
        }
        k += 1;
    }
    true
}

/// The place at which a point of the grid is stored.
fn slot<C: Fn(Real32, Real32, Real32) -> Option<usize>>(cell: &C, l: &GridLayout, row: WeatherRow) -> (s:
    Option<usize>)
    requires
        given::settled3(*cell),
        l.nx * l.ny <= usize::MAX,
    ensures
        s is Some <==> cell_of(*cell, *l, row) is Some,
        s matches Some(s) ==> s == slot_of(*cell, *l, row) && s < l.nx * l.ny,
{
    let i: usize = match cell(row.lon, l.origin_x, l.step_x) {
        Some(i) => i,
        None => {
            return None;
        },
    };
    let j: usize = match cell(row.lat, l.origin_y, l.step_y) {
        Some(j) => j,
        None => {
            return None;
        },
    };
    if i >= l.nx || j >= l.ny {
        return None;
    }
    proof {
        lemma_slot(i as int, j as int, l.nx as int, l.ny as int);
    }
    Some(i * l.ny + j)
}

/// The place of a cell lies among those of the grid.
pub proof fn lemma_slot(i: int, j: int, nx: int, ny: int)
    requires
        0 <= i < nx,
        0 <= j < ny,
    ensures
        0 <= i * ny,
        0 <= i * ny + j < nx * ny,
{
    assert(0 <= i * ny && i * ny + ny <= nx * ny) by (nonlinear_arith)
        requires
            0 <= i < nx,
            0 < ny,
    ;
}

/// Whether each row lies on a cell of the grid and no two on the same.
fn is_filled<C: Fn(Real32, Real32, Real32) -> Option<usize>>(cell: &C, l: &GridLayout, rows: &Vec<
    WeatherRow,
>) -> (r: bool)
    requires
        given::settled3(*cell),
        rows@.len() == l.nx * l.ny,
        l.nx >= 1,
        l.ny >= 1,
    ensures
        r == fills(*cell, *l, rows@),
{
    let len: usize = rows.len();
    let mut seen: Vec<bool> = Vec::new();
    while seen.len() < len
        invariant
            seen@.len() <= len,
            forall|i: int| 0 <= i < seen@.len() ==> !seen@[i],
        decreases len - seen@.len(),
    {
        seen.push(false);
    }
    let mut k: usize = 0;
    while k < rows.len()
        invariant
            given::settled3(*cell),
            rows@.len() == l.nx * l.ny,
            rows@.len() <= usize::MAX,
            seen@.len() == rows@.len(),
            k <= rows@.len(),
            forall|i: int| 0 <= i < k ==> cell_of(*cell, *l, #[trigger] rows@[i]) is Some,
            forall|i: int|
                0 <= i < k ==> 0 <= slot_of(*cell, *l, #[trigger] rows@[i]) < seen@.len()
                    && seen@[slot_of(*cell, *l, rows@[i])],
            forall|s: int| 0 <= s < seen@.len() && #[trigger] seen@[s] ==> taken(*cell, *l, rows@, k as int, s),
            forall|i: int, j: int|
                0 <= i < j < k ==> slot_of(*cell, *l, #[trigger] rows@[i]) != slot_of(
                    *cell,
                    *l,
                    #[trigger] rows@[j],
                ),
        decreases rows@.len() - k,
    {
        let row: WeatherRow = rows[k];
        match slot(cell, l, row) {
            None => {
                assert(cell_of(*cell, *l, rows@[k as int]) is None);
                return false;
            },
            Some(s) => {
                if seen[s] {
                    proof {
                        assert(taken(*cell, *l, rows@, k as int, s as int));
                        let i = choose|i: int|
                            0 <= i < k && slot_of(*cell, *l, #[trigger] rows@[i]) == s;
                        assert(slot_of(*cell, *l, rows@[i]) == slot_of(*cell, *l, rows@[k as int]));
                    }
                    return false;
                }
                let ghost before = seen@;
                seen.set(s, true);
                proof {
                    assert(slot_of(*cell, *l, rows@[k as int]) == s);
                    assert forall|t: int| 0 <= t < seen@.len() && #[trigger] seen@[t] implies taken(
                        *cell,
                        *l,
                        rows@,
                        k + 1,
                        t,
                    ) by {
                        if t == s {
                            assert(slot_of(*cell, *l, rows@[k as int]) == t);
                        } else {
                            assert(before[t]);
                            assert(taken(*cell, *l, rows@, k as int, t));
                            let i = choose|i: int|
                                0 <= i < k && slot_of(*cell, *l, #[trigger] rows@[i]) == t;
                            assert(slot_of(*cell, *l, rows@[i]) == t);
                        }
                    }
                }
            },
        }
        k += 1;
    }
    true
}

/// Whether one of the first `n` rows is stored at a place.
pub open spec fn taken<C: Fn(Real32, Real32, Real32) -> Option<usize>>(
    cell: C,
    l: GridLayout,
    rows: Seq<WeatherRow>,
    n: int,
    s: int,
) -> bool {
    exists|i: int| 0 <= i < n && slot_of(cell, l, #[trigger] rows[i]) == s
}

/// The regular grid that rows lie on and fill, if there is one.
///
/// `minus` subtracts, `even` tells whether two neighbours of an axis are a step
/// apart, and `cell` tells how many steps a coordinate is from the origin.
pub fn detect_grid_layout<
    M: Fn(Real32, Real32) -> Real32,
    E: Fn(Real32, Real32, Real32) -> bool,
    C: Fn(Real32, Real32, Real32) -> Option<usize>,
>(rows: &Vec<WeatherRow>, minus: &M, even: &E, cell: &C) -> (layout: Option<GridLayout>)
    requires
        given::settled2(*minus),
        given::settled3(*even),
        given::settled3(*cell),
    ensures
        layout == layout_of(*minus, *even, *cell, rows@),
{
    let (all_xs, all_ys): (Vec<Real32>, Vec<Real32>) = match coordinates(rows) {
        None => {
            return None;
        },
        Some(c) => c,
    };
    let xs: Vec<Real32> = axes::distinct(&all_xs);
    let ys: Vec<Real32> = axes::distinct(&all_ys);
    let nx: usize = xs.len();
    let ny: usize = ys.len();
    let count: usize = rows.len();
    if nx < 2 || ny < 2 {
        return None;
    }
    match nx.checked_mul(ny) {
        None => {
            return None;
        },
        Some(n) => {
            if n != count {
                return None;
            }
        },
    }
    let l: GridLayout = GridLayout {
        origin_x: xs[0],
        origin_y: ys[0],
        step_x: minus(xs[1], xs[0]),
        step_y: minus(ys[1], ys[0]),
        nx,
        ny,
    };
    assert(l == candidate(*minus, xs@, ys@));
    let zero: Real32 = Real32 { bits: 0 };
    if l.step_x.le(zero) || l.step_y.le(zero) || !l.step_x.is_finite() || !l.step_y.is_finite() {
        return None;
    }
    if !is_evenly(even, &xs, l.step_x) || !is_evenly(even, &ys, l.step_y) {
        return None;
    }
    if !is_filled(cell, &l, rows) {
        return None;
    }
    Some(l)
}

/// The number of places that hold a row.
spec fn held(slots: Seq<Option<WeatherRow>>) -> Seq<bool> {
    Seq::new(slots.len(), |k: int| slots[k] is Some)
}

/// Where as many places are set as there are, each is.
proof fn lemma_all_set(s: Seq<bool>)
    requires
        walk::count_set(s) == s.len(),
    ensures
        forall|k: int| 0 <= k < s.len() ==> s[k],
    decreases s.len(),
{
    if s.len() > 0 {
        walk::lemma_count_set_bound(s.drop_last());
        lemma_all_set(s.drop_last());
        assert forall|k: int| 0 <= k < s.len() implies s[k] by {
            if k < s.len() - 1 {
                assert(s.drop_last()[k] == s[k]);
            }
        }
    }
}

/// The rows that fill a grid, each at its place.
pub fn reorder_to_grid<C: Fn(Real32, Real32, Real32) -> Option<usize>>(
    rows: Vec<WeatherRow>,
    layout: &GridLayout,
    cell: &C,
) -> (out: Vec<WeatherRow>)
    requires
        given::settled3(*cell),
        fills(*cell, *layout, rows@),
    ensures
        out@.len() == rows@.len(),
        forall|k: int|
            0 <= k < rows@.len() ==> 0 <= slot_of(*cell, *layout, #[trigger] rows@[k]) < out@.len()
                && out@[slot_of(*cell, *layout, rows@[k])] == rows@[k],
        forall|s: int| 0 <= s < out@.len() ==> taken(*cell, *layout, rows@, rows@.len() as int, s),
{
    let len: usize = rows.len();
    let mut slots: Vec<Option<WeatherRow>> = Vec::new();
    while slots.len() < len
        invariant
            slots@.len() <= len,
            forall|i: int| 0 <= i < slots@.len() ==> slots@[i] is None,
        decreases len - slots@.len(),
    {
        slots.push(None);
    }
    proof {
        walk::lemma_count_set_none(held(slots@));
    }
    let mut k: usize = 0;
    while k < len
        invariant
            given::settled3(*cell),
            fills(*cell, *layout, rows@),
            len == rows@.len(),
            slots@.len() == len,
            k <= len,
            walk::count_set(held(slots@)) == k,
            forall|i: int|
                0 <= i < k ==> 0 <= slot_of(*cell, *layout, #[trigger] rows@[i]) < slots@.len()
                    && slots@[slot_of(*cell, *layout, rows@[i])] == Some(rows@[i]),
            forall|s: int|
                0 <= s < slots@.len() && slots@[s] is Some ==> #[trigger] taken(
                    *cell,
                    *layout,
                    rows@,
                    k as int,
                    s,
                ),
        decreases len - k,
    {
        let row: WeatherRow = rows[k];
        assert(cell_of(*cell, *layout, rows@[k as int]) is Some);
        match slot(cell, layout, row) {
            Some(s) => {
                proof {
                    assert(slot_of(*cell, *layout, rows@[k as int]) == s);
                    if slots@[s as int] is Some {
                        assert(taken(*cell, *layout, rows@, k as int, s as int));
                        let i = choose|i: int|
                            0 <= i < k && slot_of(*cell, *layout, #[trigger] rows@[i]) == s;
                        assert(slot_of(*cell, *layout, rows@[i]) != slot_of(
                            *cell,
                            *layout,
                            rows@[k as int],
                        ));
                    }
                    assert(!held(slots@)[s as int]);
                    walk::lemma_count_set_update(held(slots@), s as int);
                }
                let ghost before = slots@;
                slots.set(s, Some(row));
                proof {
                    assert(held(slots@) =~= held(before).update(s as int, true));
                    assert forall|t: int| 0 <= t < slots@.len() && slots@[t] is Some implies
                        #[trigger] taken(*cell, *layout, rows@, k + 1, t) by {
                        if t == s {
                            assert(slot_of(*cell, *layout, rows@[k as int]) == t);
                        } else {
                            assert(taken(*cell, *layout, rows@, k as int, t));
                            let i = choose|i: int|
                                0 <= i < k && slot_of(*cell, *layout, #[trigger] rows@[i]) == t;
                            assert(slot_of(*cell, *layout, rows@[i]) == t);
                        }
                    }
                    assert forall|i: int| 0 <= i < k + 1 implies 0 <= slot_of(
                        *cell,
                        *layout,
                        #[trigger] rows@[i],
                    ) < slots@.len() && slots@[slot_of(*cell, *layout, rows@[i])] == Some(rows@[i]) by {
                        if i < k {
                            assert(slot_of(*cell, *layout, rows@[i]) != slot_of(
                                *cell,
                                *layout,
                                rows@[k as int],
                            ));
                        }
                    }
                }
            },
            None => {},
        }
        k += 1;
    }
    proof {
        lemma_all_set(held(slots@));
        assert forall|s: int| 0 <= s < slots@.len() implies slots@[s] is Some by {
            assert(held(slots@)[s]);
        }
    }
    let mut out: Vec<WeatherRow> = Vec::new();
    let mut s: usize = 0;
    while s < len
        invariant
            len == slots@.len(),
            s <= len,
            out@.len() == s,
            forall|i: int| 0 <= i < slots@.len() ==> slots@[i] is Some,
            forall|i: int| 0 <= i < s ==> slots@[i] == Some(out@[i]),
        decreases len - s,
    {
        match slots[s] {
            Some(row) => {
                out.push(row);
            },
            None => {},
        }
        s += 1;
    }
    out
}

} // verus!
