//! What holds of ways over the global grid, told by the columns and rows of its cells.
use crate::landmass::astar;
use crate::landmass::distance;
use crate::landmass::grid;
use crate::landmass::grid::LandmassGrid;
use crate::landmass::places;
use crate::landmass::snap;
use crate::landmass::walk;
use crate::number::{Real, Real32};
use vstd::prelude::*;

verus! {

/// How many columns lie between two columns, the shorter way round the globe.
pub open spec fn columns_apart(w: int, a: int, b: int) -> int {
    let d = if a <= b {
        b - a
    } else {
        a - b
    };
    if d <= w - d {
        d
    } else {
        w - d
    }
}

/// How many rows lie between two rows.
pub open spec fn rows_apart(a: int, b: int) -> int {
    if a <= b {
        b - a
    } else {
        a - b
    }
}

/// Whether two cells of a grid `w` columns wide touch, by a side or a corner, the last
/// column touching the first.
pub open spec fn touch(w: int, a: int, b: int) -> bool {
    a != b && rows_apart(a / w, b / w) <= 1 && columns_apart(w, a % w, b % w) <= 1
}

/// Columns that are one apart are those to the west and to the east.
proof fn lemma_beside(w: int, i: int, c: int)
    requires
        w >= 3,
        0 <= i < w,
        0 <= c < w,
    ensures
        (i - 1) % w == (if i > 0 {
            i - 1
        } else {
            w - 1
        }),
        (i + 1) % w == (if i < w - 1 {
            i + 1
        } else {
            0
        }),
        columns_apart(w, i, c) <= 1 <==> c == (i - 1) % w || c == i || c == (i + 1) % w,
        columns_apart(w, i, c) == 0 <==> c == i,
        (i - 1) % w != (i + 1) % w,
        (i - 1) % w != i,
        (i + 1) % w != i,
{
    if i > 0 {
        vstd::arithmetic::div_mod::lemma_small_mod((i - 1) as nat, w as nat);
    } else {
        vstd::arithmetic::div_mod::lemma_fundamental_div_mod_converse(-1, w, -1, w - 1);
    }
    if i < w - 1 {
        vstd::arithmetic::div_mod::lemma_small_mod((i + 1) as nat, w as nat);
    } else {
        vstd::arithmetic::div_mod::lemma_mod_self_0(w);
    }
}

/// A cell leads to another just if the two touch. Columns run round the globe: the last
/// cell of a row leads to the first and back. Rows end at the poles.
pub proof fn law_cells_lead_to_those_they_touch(g: LandmassGrid, a: usize, b: usize)
    requires
        g.wf(),
        g.width >= 3,
        a < g.sdf_m@.len(),
        b < g.sdf_m@.len(),
    ensures
        (g.leads())(a).contains(b) <==> touch(g.width as int, a as int, b as int),
{
    let w = g.width as int;
    let h = g.height as int;
    let (i, j) = (a as int % w, a as int / w);
    let (c, r) = (b as int % w, b as int / w);
    places::lemma_place_of_cell(w, h, a as int);
    places::lemma_place_of_cell(w, h, b as int);
    lemma_beside(w, i, c);
    let west = (i - 1) % w;
    let east = (i + 1) % w;
    let list = (g.leads())(a);
    let cells = grid::around(w, h, i, j);
    assert(w * h == g.sdf_m.len());
    if j > 0 {
        places::lemma_cell_place(w, h, west, j - 1);
        places::lemma_cell_place(w, h, i, j - 1);
        places::lemma_cell_place(w, h, east, j - 1);
    }
    places::lemma_cell_place(w, h, west, j);
    places::lemma_cell_place(w, h, east, j);
    if j + 1 < h {
        places::lemma_cell_place(w, h, west, j + 1);
        places::lemma_cell_place(w, h, i, j + 1);
        places::lemma_cell_place(w, h, east, j + 1);
    }
    assert forall|k: int| 0 <= k < cells.len() implies 0 <= #[trigger] cells[k] < w * h && touch(
        w,
        a as int,
        cells[k],
    ) by {
        lemma_beside(w, i, west);
        lemma_beside(w, i, east);
        lemma_beside(w, i, i);
    }
    if list.contains(b) {
        let k = choose|k: int| 0 <= k < list.len() && list[k] == b;
        assert(list[k] == cells[k] as usize);
        assert(touch(w, a as int, cells[k]));
        assert(cells[k] == b);
    }
    if touch(w, a as int, b as int) {
        let off = if c == west {
            0int
        } else if c == i {
            1
        } else {
            2
        };
        let before = if j > 0 {
            3int
        } else {
            0
        };
        let k = if r == j - 1 {
            off
        } else if r == j {
            before + (if c == west {
                0int
            } else {
                1
            })
        } else {
            before + 2 + off
        };
        assert(cells[k] == r * w + c);
        assert(list[k] == b);
    }
}

/// A cell is listed once, after those of rows further south, and within a row from west to
/// east.
pub proof fn law_neighbours_are_listed_in_order(g: LandmassGrid, a: usize, p: int, q: int)
    requires
        g.wf(),
        g.width >= 3,
        a < g.sdf_m@.len(),
        0 <= p < q < (g.leads())(a).len(),
    ensures
        ({
            let w = g.width as int;
            let x = (g.leads())(a)[p] as int;
            let y = (g.leads())(a)[q] as int;
            x / w < y / w || (x / w == y / w && (x % w - a as int % w + 1) % w < (y % w - a as int
                % w + 1) % w)
        }),
{
    let w = g.width as int;
    let h = g.height as int;
    let (i, j) = (a as int % w, a as int / w);
    places::lemma_place_of_cell(w, h, a as int);
    lemma_beside(w, i, i);
    let west = (i - 1) % w;
    let east = (i + 1) % w;
    if j > 0 {
        places::lemma_cell_place(w, h, west, j - 1);
        places::lemma_cell_place(w, h, i, j - 1);
        places::lemma_cell_place(w, h, east, j - 1);
    }
    places::lemma_cell_place(w, h, west, j);
    places::lemma_cell_place(w, h, east, j);
    if j + 1 < h {
        places::lemma_cell_place(w, h, west, j + 1);
        places::lemma_cell_place(w, h, i, j + 1);
        places::lemma_cell_place(w, h, east, j + 1);
    }
    assert((west - i + 1) % w == 0) by {
        if i > 0 {
            vstd::arithmetic::div_mod::lemma_small_mod(0, w as nat);
        } else {
            vstd::arithmetic::div_mod::lemma_mod_self_0(w);
        }
    }
    assert((i - i + 1) % w == 1) by {
        vstd::arithmetic::div_mod::lemma_small_mod(1, w as nat);
    }
    assert((east - i + 1) % w == 2) by {
        if i < w - 1 {
            vstd::arithmetic::div_mod::lemma_small_mod(2, w as nat);
        } else {
            vstd::arithmetic::div_mod::lemma_fundamental_div_mod_converse(2 - w, w, -1, 2);
        }
    }
    let cells = grid::around(w, h, i, j);
    assert(w * h == g.sdf_m.len());
    assert((g.leads())(a)[p] == cells[p] as usize);
    assert((g.leads())(a)[q] == cells[q] as usize);
}

/// Whether a cell is sea: its distance to the coast is not below zero.
pub open spec fn afloat(g: LandmassGrid, c: usize) -> bool {
    c < g.sdf_m@.len() && (Real32 { bits: 0 }).at_most(g.sdf_m@[c as int])
}

/// Whether `v` is a way over sea from `start` to `goal`: each cell touches the one before it,
/// and all but the two ends are allowed.
pub open spec fn is_way<A: Fn(usize) -> bool>(
    g: LandmassGrid,
    allowed: A,
    v: Seq<usize>,
    start: usize,
    goal: usize,
) -> bool {
    &&& v.len() >= 1
    &&& v[0] == start
    &&& v[v.len() - 1] == goal
    &&& forall|k: int|
        0 <= k < v.len() ==> afloat(g, #[trigger] v[k]) && (v[k] == start || v[k] == goal
            || call_ensures(allowed, (v[k],), true))
    &&& forall|k: int|
        1 <= k < v.len() ==> touch(g.width as int, v[k - 1] as int, #[trigger] v[k] as int)
}

/// Ways over sea are what a search walks.
proof fn lemma_way_is_walk<A: Fn(usize) -> bool>(
    g: LandmassGrid,
    allowed: A,
    v: Seq<usize>,
    start: usize,
    goal: usize,
)
    requires
        g.wf(),
        g.width >= 3,
        afloat(g, start),
        v.len() >= 1,
        forall|k: int| 0 <= k < v.len() ==> #[trigger] v[k] < g.sdf_m@.len(),
    ensures
        walk::walk_between(
            astar::open_steps(g.leads(), grid::enterable(g.sea(), start, goal, allowed)),
            v,
            start,
            goal,
        ) <==> is_way(g, allowed, v, start, goal),
{
    let edge = astar::open_steps(g.leads(), grid::enterable(g.sea(), start, goal, allowed));
    let w = g.width as int;
    if is_way(g, allowed, v, start, goal) {
        assert forall|k: int| 1 <= k < v.len() implies #[trigger] walk::hop(edge, v, k) by {
            law_cells_lead_to_those_they_touch(g, v[k - 1], v[k]);
            assert(touch(w, v[k - 1] as int, v[k] as int));
            assert(afloat(g, v[k]));
        }
    }
    if walk::walk_between(edge, v, start, goal) {
        assert forall|k: int| 1 <= k < v.len() implies touch(w, v[k - 1] as int, #[trigger] v[k] as int)
            by {
            assert(walk::hop(edge, v, k));
            law_cells_lead_to_those_they_touch(g, v[k - 1], v[k]);
        }
        assert forall|k: int| 0 <= k < v.len() implies afloat(g, #[trigger] v[k]) && (v[k] == start
            || v[k] == goal || call_ensures(allowed, (v[k],), true)) by {
            if k > 0 {
                assert(walk::hop(edge, v, k));
            }
        }
    }
}

/// A sea cell is its own nearest.
proof fn lemma_sea_stays(g: LandmassGrid, at: usize, c: usize)
    requires
        afloat(g, at),
        snap::snapped(g.leads(), g.sea(), at, c),
    ensures
        c == at,
{
    let edge = snap::steps(g.leads());
    let k = choose|k: nat|
        k <= snap::SNAP_TO_SEA_MAX_RING && #[trigger] snap::nearest_sea(edge, g.sea(), at, c, k);
    assert(walk::walk_between(edge, seq![at], at, at));
    assert(walk::within_steps(edge, at, at, 0));
    assert(k == 0);
    let p = choose|p: Seq<usize>| #[trigger]
        walk::walk_between(edge, p, at, c) && p.len() <= k + 1;
}

/// A route between two sea cells is a way over sea from the one to the other that visits no
/// cell twice. From a cell to itself it is empty.
pub proof fn law_route_is_a_way_over_sea<
    A: Fn(usize) -> bool,
    X: Fn(Real, usize, usize) -> Real,
    R: Fn(Real, usize) -> Real,
>(
    g: LandmassGrid,
    allowed: A,
    extend: X,
    rank: R,
    from: usize,
    to: usize,
    route: Seq<usize>,
)
    requires
        g.wf(),
        g.width >= 3,
        afloat(g, from),
        afloat(g, to),
        grid::route_joins(g.leads(), g.sea(), allowed, extend, rank, from, to, route),
    ensures
        from == to ==> route.len() == 0,
        from != to ==> is_way(g, allowed, route, from, to),
        forall|i: int, j: int| 0 <= i < j < route.len() ==> route[i] != route[j],
{
    let nb = g.leads();
    let sea = g.sea();
    let (start, goal) = choose|start: usize, goal: usize|
        #![trigger snap::snapped(nb, sea, from, start), snap::snapped(nb, sea, to, goal)]
        {
            &&& snap::snapped(nb, sea, from, start)
            &&& snap::snapped(nb, sea, to, goal)
            &&& grid::route_found(nb, sea, allowed, extend, rank, start, goal, route)
        };
    lemma_sea_stays(g, from, start);
    lemma_sea_stays(g, to, goal);
    if from != to {
        lemma_way_is_walk(g, allowed, route, from, to);
    }
}

/// A route is no longer than any other way over sea between its ends, where routes are
/// ranked consistently.
pub proof fn law_no_way_over_sea_is_shorter<
    A: Fn(usize) -> bool,
    X: Fn(Real, usize, usize) -> Real,
    R: Fn(Real, usize) -> Real,
>(
    g: LandmassGrid,
    allowed: A,
    extend: X,
    rank: R,
    from: usize,
    to: usize,
    route: Seq<usize>,
    other: Seq<usize>,
)
    requires
        g.wf(),
        g.width >= 3,
        from != to,
        is_way(g, allowed, other, from, to),
        grid::route_joins(g.leads(), g.sea(), allowed, extend, rank, from, to, route),
        astar::consistent(
            astar::open_steps(g.leads(), grid::enterable(g.sea(), from, to, allowed)),
            astar::lengths(extend),
            astar::ranks(rank),
            g.sdf_m@.len() as int,
            from,
        ),
    ensures
        walk::walk_cost(astar::lengths(extend), route) <= walk::walk_cost(
            astar::lengths(extend),
            other,
        ),
{
    let nb = g.leads();
    let sea = g.sea();
    assert(afloat(g, other[0]));
    assert(afloat(g, other[other.len() - 1]));
    let (start, goal) = choose|start: usize, goal: usize|
        #![trigger snap::snapped(nb, sea, from, start), snap::snapped(nb, sea, to, goal)]
        {
            &&& snap::snapped(nb, sea, from, start)
            &&& snap::snapped(nb, sea, to, goal)
            &&& grid::route_found(nb, sea, allowed, extend, rank, start, goal, route)
        };
    lemma_sea_stays(g, from, start);
    lemma_sea_stays(g, to, goal);
    assert forall|k: int| 0 <= k < other.len() implies #[trigger] other[k] < g.sdf_m@.len() by {
        assert(afloat(g, other[k]));
    }
    lemma_way_is_walk(g, allowed, other, from, to);
}

/// Where no route is found between two sea cells, there is no way over sea between them, or
/// too many cells come before the goal.
pub proof fn law_missing_route_has_no_way<
    A: Fn(usize) -> bool,
    X: Fn(Real, usize, usize) -> Real,
    R: Fn(Real, usize) -> Real,
>(
    g: LandmassGrid,
    allowed: A,
    extend: X,
    rank: R,
    from: usize,
    to: usize,
    other: Seq<usize>,
)
    requires
        g.wf(),
        g.width >= 3,
        afloat(g, from),
        afloat(g, to),
        grid::route_missing(g.leads(), g.sea(), allowed, extend, rank, from, to),
        !astar::out_of_reach(
            astar::open_steps(g.leads(), grid::enterable(g.sea(), from, to, allowed)),
            astar::lengths(extend),
            astar::ranks(rank),
            g.sdf_m@.len() as int,
            from,
            to,
        ),
    ensures
        from != to,
        !is_way(g, allowed, other, from, to),
{
    let nb = g.leads();
    let sea = g.sea();
    let edge = snap::steps(nb);
    lemma_not_landlocked(g, from);
    lemma_not_landlocked(g, to);
    let (start, goal) = choose|start: usize, goal: usize|
        #![trigger snap::snapped(nb, sea, from, start), snap::snapped(nb, sea, to, goal)]
        {
            &&& snap::snapped(nb, sea, from, start)
            &&& snap::snapped(nb, sea, to, goal)
            &&& start != goal
            &&& astar::no_route(
                astar::open_steps(nb, grid::enterable(sea, start, goal, allowed)),
                astar::lengths(extend),
                astar::ranks(rank),
                sea.len() as int,
                start,
                goal,
            )
        };
    lemma_sea_stays(g, from, start);
    lemma_sea_stays(g, to, goal);
    if is_way(g, allowed, other, from, to) {
        assert forall|k: int| 0 <= k < other.len() implies #[trigger] other[k] < g.sdf_m@.len() by {
            assert(afloat(g, other[k]));
        }
        lemma_way_is_walk(g, allowed, other, from, to);
    }
}

/// A sea cell has sea near it.
proof fn lemma_not_landlocked(g: LandmassGrid, at: usize)
    requires
        afloat(g, at),
    ensures
        !snap::landlocked(snap::steps(g.leads()), g.sea(), at),
{
    let edge = snap::steps(g.leads());
    assert(walk::walk_between(edge, seq![at], at, at));
    assert(walk::within_steps(edge, at, at, 0));
    assert(walk::within_steps(edge, at, at, snap::SNAP_TO_SEA_MAX_RING as nat));
}

/// A way costs nothing where it begins, and each step makes it as long as the caller says.
pub proof fn law_lengths_add_up_step_by_step<X: Fn(Real, usize, usize) -> Real>(
    extend: X,
    v: Seq<usize>,
    to: usize,
    r: Real,
)
    requires
        v.len() >= 1,
        call_ensures(
            extend,
            (
                (Real { bits: walk::walk_cost(astar::lengths(extend), v) }),
                v[v.len() - 1],
                to,
            ),
            r,
        ),
        forall|g: Real, a: usize, b: usize, r: Real, s: Real| #[trigger]
            call_ensures(extend, (g, a, b), r) && #[trigger] call_ensures(extend, (g, a, b), s)
                ==> r == s,
    ensures
        v.len() == 1 ==> walk::walk_cost(astar::lengths(extend), v) == 0,
        walk::walk_cost(astar::lengths(extend), v.push(to)) == r.bits,
{
    assert(v.push(to).drop_last() =~= v);
}

/// How many rings of cells round one cell another cell is, rings reaching round the globe.
pub open spec fn rings_apart(w: int, a: int, b: int) -> int {
    let dx = columns_apart(w, a % w, b % w);
    let dy = rows_apart(a / w, b / w);
    if dx <= dy {
        dy
    } else {
        dx
    }
}

/// A cell that touches another is at most one ring further out.
proof fn lemma_ring_grows(w: int, h: int, a: int, b: int, c: int)
    requires
        w >= 3,
        0 <= a < w * h,
        0 <= b < w * h,
        0 <= c < w * h,
        touch(w, b, c),
    ensures
        rings_apart(w, a, c) <= rings_apart(w, a, b) + 1,
{
    places::lemma_place_of_cell(w, h, a);
    places::lemma_place_of_cell(w, h, b);
    places::lemma_place_of_cell(w, h, c);
}

/// A cell further out touches one that is a ring nearer.
proof fn lemma_ring_nearer(w: int, h: int, a: int, c: int) -> (b: int)
    requires
        w >= 3,
        0 <= a < w * h,
        0 <= c < w * h,
        a != c,
    ensures
        0 <= b < w * h,
        touch(w, b, c),
        rings_apart(w, a, b) == rings_apart(w, a, c) - 1,
{
    places::lemma_place_of_cell(w, h, a);
    places::lemma_place_of_cell(w, h, c);
    let (ai, aj) = (a % w, a / w);
    let (ci, cj) = (c % w, c / w);
    let d = rings_apart(w, a, c);
    let j = if cj > aj {
        cj - 1
    } else if cj < aj {
        cj + 1
    } else {
        cj
    };
    let east = if ci >= ai {
        ci - ai
    } else {
        ci - ai + w
    };
    // `east` columns lead from `a` east to `c`; the shorter way is taken back.
    let i = if ci == ai {
        ci
    } else if east <= w - east {
        if ci > 0 {
            ci - 1
        } else {
            w - 1
        }
    } else {
        if ci < w - 1 {
            ci + 1
        } else {
            0
        }
    };
    places::lemma_cell_place(w, h, i, j);
    if ci == ai && cj == aj {
        assert(false);
    }
    assert(columns_apart(w, ai, i) == (if ci == ai {
        0
    } else {
        columns_apart(w, ai, ci) - 1
    }));
    j * w + i
}

/// The cells within so many steps are those within so many rings.
proof fn lemma_steps_are_rings(g: LandmassGrid, at: usize, x: usize, k: nat)
    requires
        g.wf(),
        g.width >= 3,
        at < g.sdf_m@.len(),
        x < g.sdf_m@.len(),
    ensures
        walk::within_steps(snap::steps(g.leads()), at, x, k) <==> rings_apart(
            g.width as int,
            at as int,
            x as int,
        ) <= k,
    decreases k,
{
    let edge = snap::steps(g.leads());
    let w = g.width as int;
    let h = g.height as int;
    places::lemma_place_of_cell(w, h, at as int);
    places::lemma_place_of_cell(w, h, x as int);
    if x == at {
        assert(walk::walk_between(edge, seq![at], at, at));
        assert(walk::within_steps(edge, at, at, k));
    } else {
        if walk::within_steps(edge, at, x, k) {
            let via = walk::lemma_last_step(edge, at, x, k);
            lemma_leads_from_grid(g, at, via, (k - 1) as nat);
            law_cells_lead_to_those_they_touch(g, via, x);
            lemma_steps_are_rings(g, at, via, (k - 1) as nat);
            lemma_ring_grows(w, h, at as int, via as int, x as int);
        }
        if rings_apart(w, at as int, x as int) <= k {
            let b = lemma_ring_nearer(w, h, at as int, x as int);
            assert(b < g.sdf_m.len());
            let via = b as usize;
            assert(rings_apart(w, at as int, b) >= 0) by {
                places::lemma_place_of_cell(w, h, b);
            }
            lemma_steps_are_rings(g, at, via, (k - 1) as nat);
            law_cells_lead_to_those_they_touch(g, via, x);
            walk::lemma_one_more_step(edge, at, via, x, (k - 1) as nat);
        }
    }
}

/// Steps from a cell of the grid stay in the grid.
proof fn lemma_leads_from_grid(g: LandmassGrid, at: usize, x: usize, k: nat)
    requires
        g.wf(),
        g.width >= 3,
        at < g.sdf_m@.len(),
        walk::within_steps(snap::steps(g.leads()), at, x, k),
    ensures
        x < g.sdf_m@.len(),
    decreases k,
{
    if x != at {
        let edge = snap::steps(g.leads());
        let via = walk::lemma_last_step(edge, at, x, k);
        lemma_leads_from_grid(g, at, via, (k - 1) as nat);
        let list = (g.leads())(via);
        let n = choose|n: int| 0 <= n < list.len() && list[n] == x;
        let w = g.width as int;
        let h = g.height as int;
        let (i, j) = (via as int % w, via as int / w);
        places::lemma_place_of_cell(w, h, via as int);
        lemma_beside(w, i, i);
        assert(w * h == g.sdf_m.len());
        if j > 0 {
            places::lemma_cell_place(w, h, (i - 1) % w, j - 1);
            places::lemma_cell_place(w, h, i, j - 1);
            places::lemma_cell_place(w, h, (i + 1) % w, j - 1);
        }
        places::lemma_cell_place(w, h, (i - 1) % w, j);
        places::lemma_cell_place(w, h, (i + 1) % w, j);
        if j + 1 < h {
            places::lemma_cell_place(w, h, (i - 1) % w, j + 1);
            places::lemma_cell_place(w, h, i, j + 1);
            places::lemma_cell_place(w, h, (i + 1) % w, j + 1);
        }
        assert(list[n] == grid::around(w, h, i, j)[n] as usize);
    }
}

/// The cell that another is moved to is sea, at most 32 rings away, and no sea cell is
/// fewer rings away.
pub proof fn law_snaps_to_the_nearest_sea(g: LandmassGrid, at: usize, c: usize, x: usize)
    requires
        g.wf(),
        g.width >= 3,
        at < g.sdf_m@.len(),
        snap::snapped(g.leads(), g.sea(), at, c),
        afloat(g, x),
    ensures
        afloat(g, c),
        rings_apart(g.width as int, at as int, c as int) <= 32,
        rings_apart(g.width as int, at as int, c as int) <= rings_apart(
            g.width as int,
            at as int,
            x as int,
        ),
{
    let edge = snap::steps(g.leads());
    let w = g.width as int;
    let k = choose|k: nat|
        k <= snap::SNAP_TO_SEA_MAX_RING && #[trigger] snap::nearest_sea(edge, g.sea(), at, c, k);
    lemma_steps_are_rings(g, at, c, k);
    let d = rings_apart(w, at as int, x as int);
    places::lemma_place_of_cell(w, g.height as int, at as int);
    places::lemma_place_of_cell(w, g.height as int, x as int);
    assert(d >= 0);
    lemma_steps_are_rings(g, at, x, d as nat);
}

/// Where a cell cannot be moved to sea, no sea cell is within 32 rings of it.
pub proof fn law_no_sea_near_a_landlocked_cell(g: LandmassGrid, at: usize, x: usize)
    requires
        g.wf(),
        g.width >= 3,
        at < g.sdf_m@.len(),
        snap::landlocked(snap::steps(g.leads()), g.sea(), at),
        afloat(g, x),
    ensures
        rings_apart(g.width as int, at as int, x as int) > 32,
{
    lemma_steps_are_rings(g, at, x, 32);
}

/// The square of the distance between two cells of a grid `w` columns wide, in cells. In a
/// wrapping grid the shorter way round counts.
pub open spec fn apart_sq(w: int, wrap: bool, a: int, b: int) -> int {
    let dx = if wrap {
        columns_apart(w, a % w, b % w)
    } else {
        rows_apart(a % w, b % w)
    };
    let dy = rows_apart(a / w, b / w);
    dx * dx + dy * dy
}

/// The signed square of a cell's distance to the coast is no larger than that to any cell of
/// the other kind, and as large as that to one of them.
pub proof fn law_coast_distance_is_to_the_nearest_other_cell(
    land: Seq<bool>,
    w: int,
    h: int,
    wrap: bool,
    c: int,
    x: int,
) -> (near: int)
    requires
        0 < w,
        0 < h,
        land.len() == w * h,
        0 <= c < land.len(),
        0 <= x < land.len(),
        land[x] != land[c],
    ensures
        ({
            let d = grid::coast_distances(land, w, wrap)[c];
            let sq = if land[c] {
                -d
            } else {
                d
            };
            &&& sq <= apart_sq(w, wrap, c, x)
            &&& 0 <= near < land.len() && land[near] != land[c]
            &&& sq == apart_sq(w, wrap, c, near)
        }),
{
    let water = Seq::new(land.len(), |c: int| !land[c]);
    let seeds = if land[c] {
        water
    } else {
        land
    };
    vstd::arithmetic::div_mod::lemma_div_multiples_vanish(h, w);
    assert(w * h == h * w) by (nonlinear_arith);
    places::lemma_place_of_cell(w, h, c);
    places::lemma_place_of_cell(w, h, x);
    let (i, j) = (c % w, c / w);
    let (xi, xj) = (x % w, x / w);
    distance::lemma_some_nearest(seeds, w, h, wrap, i, j);
    let o = distance::nearest_offset(seeds, w, h, wrap, i, j);
    assert(distance::seed_at(seeds, w, xi, xj));
    assert(distance::has_seed(seeds, w, h));
    let dy = rows_apart(j, xj);
    assert(dy * dy == (j - xj) * (j - xj)) by (nonlinear_arith)
        requires
            dy == j - xj || dy == xj - j,
    ;
    let (si, sj) = choose|si: int, sj: int|
        places::in_grid(w, h, si, sj) && #[trigger] distance::seed_at(seeds, w, si, sj)
            && distance::leads(w, wrap, si, i, o.0) && o.1 == j - sj;
    places::lemma_cell_place(w, h, si, sj);
    let near = sj * w + si;
    let ey = rows_apart(j, sj);
    assert(ey * ey == (j - sj) * (j - sj)) by (nonlinear_arith)
        requires
            ey == j - sj || ey == sj - j,
    ;
    let e = distance::gap(w, wrap, si, i);
    assert(distance::len_sq(o) <= e * e + (j - sj) * (j - sj));
    let dx = o.0;
    assert(e * e <= dx * dx) by (nonlinear_arith)
        requires
            0 <= e,
            e <= dx || e <= -dx,
    ;
    near
}

/// A bias to the north admits what a bias to the south admits on the other side of the line: half
/// a degree to the wrong side, and everything on the right one.
pub proof fn law_biases_mirror_each_other(offset: u64)
    requires
        offset < 0x8000_0000_0000_0000,
    ensures
        ({
            let above = Real { bits: offset };
            let below = Real { bits: (offset + 0x8000_0000_0000_0000) as u64 };
            let half = Real { bits: 0x3FE0_0000_0000_0000 };
            &&& grid::bias_admits(grid::SeaPathBias::Unbiased, above) && grid::bias_admits(
                grid::SeaPathBias::Unbiased,
                below,
            )
            &&& grid::bias_admits(grid::SeaPathBias::North, above) == grid::bias_admits(
                grid::SeaPathBias::South,
                below,
            )
            &&& grid::bias_admits(grid::SeaPathBias::South, above) == grid::bias_admits(
                grid::SeaPathBias::North,
                below,
            )
            &&& grid::bias_admits(grid::SeaPathBias::North, above) <==> !above.nan()
            &&& grid::bias_admits(grid::SeaPathBias::South, above) <==> above.at_most(half)
        }),
{
}

/// A column counted round the grid is one of its columns, a whole number of rounds away.
pub proof fn law_columns_are_counted_round(i: int, w: int)
    requires
        w > 0,
    ensures
        0 <= grid::wrapped(i, w) < w,
        (i - grid::wrapped(i, w)) % w == 0,
        0 <= i < w ==> grid::wrapped(i, w) == i,
        grid::wrapped(i + w, w) == grid::wrapped(i, w),
{
    vstd::arithmetic::div_mod::lemma_mod_bound(i, w);
    vstd::arithmetic::div_mod::lemma_fundamental_div_mod(i, w);
    let q = i / w;
    assert(i - i % w == q * w) by (nonlinear_arith)
        requires
            i == w * q + i % w,
    ;
    vstd::arithmetic::div_mod::lemma_mod_multiples_basic(q, w);
    if 0 <= i < w {
        vstd::arithmetic::div_mod::lemma_small_mod(i as nat, w as nat);
    }
    vstd::arithmetic::div_mod::lemma_mod_add_multiples_vanish(i, w);
    assert(w + i == i + w);
}

/// A search is given up only after a million cells.
pub proof fn law_a_million_cells_are_searched(
    edge: spec_fn(usize, usize) -> bool,
    ext: spec_fn(u64, usize, usize) -> u64,
    rk: spec_fn(u64, usize) -> u64,
    n: int,
    start: usize,
    goal: usize,
)
    requires
        n <= 1_000_000,
    ensures
        !astar::out_of_reach(edge, ext, rk, n, start, goal),
        astar::no_route(edge, ext, rk, n, start, goal) <==> forall|p: Seq<usize>|
            !#[trigger] walk::walk_between(edge, p, start, goal),
{
    if astar::out_of_reach(edge, ext, rk, n, start, goal) {
        let seen = choose|seen: Seq<bool>|
            seen.len() == n && #[trigger] walk::count_set(seen) > astar::ASTAR_MAX_EXPANSIONS
                && !seen[goal as int] && forall|c: int|
                0 <= c < n && #[trigger] seen[c] ==> astar::comes_first(
                    edge,
                    ext,
                    rk,
                    n,
                    start,
                    goal,
                    c as usize,
                );
        walk::lemma_count_set_bound(seen);
    }
}

/// Where all cells are land, or all are water, every cell is as far from the coast as two
/// offsets of 16777216 cells, one along each axis.
pub proof fn law_no_coast_is_far_away(land: Seq<bool>, w: int, h: int, wrap: bool, c: int)
    requires
        0 < w,
        0 < h,
        land.len() == w * h,
        0 <= c < land.len(),
        forall|x: int| 0 <= x < land.len() ==> land[x] == land[c],
    ensures
        grid::coast_distances(land, w, wrap)[c] == (if land[c] {
            -562_949_953_421_312int
        } else {
            562_949_953_421_312int
        }),
{
    let water = Seq::new(land.len(), |c: int| !land[c]);
    let seeds = if land[c] {
        water
    } else {
        land
    };
    vstd::arithmetic::div_mod::lemma_div_multiples_vanish(h, w);
    assert(w * h == h * w) by (nonlinear_arith);
    places::lemma_place_of_cell(w, h, c);
    let (i, j) = (c % w, c / w);
    distance::lemma_some_nearest(seeds, w, h, wrap, i, j);
    if distance::has_seed(seeds, w, h) {
        let (si, sj) = choose|si: int, sj: int|
            places::in_grid(w, h, si, sj) && #[trigger] distance::seed_at(seeds, w, si, sj);
        places::lemma_cell_place(w, h, si, sj);
        assert(seeds[sj * w + si]);
        assert(land[sj * w + si] == land[c]);
    }
    let o = distance::nearest_offset(seeds, w, h, wrap, i, j);
    assert(o == (16_777_216int, 16_777_216int));
    assert(16_777_216int * 16_777_216int + 16_777_216int * 16_777_216int == 562_949_953_421_312int)
        by (nonlinear_arith);
}

/// The offset told for a cell leads from a seed to it: so many rows, and so many columns, in a
/// wrapping grid round the globe.
pub proof fn law_offset_leads_from_a_seed(
    seeds: Seq<bool>,
    w: int,
    h: int,
    wrap: bool,
    i: int,
    j: int,
    o: (int, int),
    s: int,
) -> (from: int)
    requires
        0 <= i < w,
        0 <= j < h,
        seeds.len() == w * h,
        0 <= s < seeds.len(),
        seeds[s],
        distance::nearest(seeds, w, h, wrap, i, j, o),
    ensures
        0 <= from < seeds.len() && seeds[from],
        from / w + o.1 == j,
        wrap ==> (from % w + o.0 - i) % w == 0,
        !wrap ==> from % w + o.0 == i,
        o.0 * o.0 + o.1 * o.1 <= apart_sq(w, wrap, j * w + i, s),
{
    places::lemma_cell_place(w, h, i, j);
    places::lemma_place_of_cell(w, h, s);
    let (xi, xj) = (s % w, s / w);
    assert(distance::seed_at(seeds, w, xi, xj));
    assert(distance::has_seed(seeds, w, h));
    let (si, sj) = choose|si: int, sj: int|
        places::in_grid(w, h, si, sj) && #[trigger] distance::seed_at(seeds, w, si, sj)
            && distance::leads(w, wrap, si, i, o.0) && o.1 == j - sj;
    places::lemma_cell_place(w, h, si, sj);
    let d = si + o.0 - i;
    assert(d == 0 || d == w || d == -w);
    vstd::arithmetic::div_mod::lemma_mod_self_0(w);
    vstd::arithmetic::div_mod::lemma_small_mod(0, w as nat);
    vstd::arithmetic::div_mod::lemma_fundamental_div_mod_converse(-w, w, -1, 0);
    let dy = rows_apart(j, xj);
    assert(dy * dy == (j - xj) * (j - xj)) by (nonlinear_arith)
        requires
            dy == j - xj || dy == xj - j,
    ;
    sj * w + si
}

} // verus!
