//! Best-first search for a route of sea cells between two cells.
//!
//! The search knows the cells by number only. Which cells a cell leads to,
//! which cells may be entered, how long a route gets by one more step, and how
//! promising a route is are asked of four functions of the caller.
use vstd::prelude::*;
use vstd::multiset::Multiset;
use crate::frontier::Frontier;
use crate::landmass::snap;
use crate::landmass::walk;
use crate::number::Real;
use crate::number::INFINITY_64;

verus! {

/// Cells that a search expands before it gives up.
pub const ASTAR_MAX_EXPANSIONS: usize = 1_000_000;

/// Marks a cell that no other cell has led to.
const NO_CELL: u32 = u32::MAX;

/// The steps that a search may take: from a cell `a` to those of the cells
/// `nb(a)` that may be entered.
pub open spec fn open_steps(
    nb: spec_fn(usize) -> Seq<usize>,
    may: spec_fn(usize) -> bool,
) -> spec_fn(usize, usize) -> bool {
    |a: usize, b: usize| nb(a).contains(b) && may(b)
}

/// Whether `enter` answers `may(c)` for each cell `c` of `n` cells.
pub open spec fn answers<E: Fn(usize) -> bool>(enter: E, may: spec_fn(usize) -> bool, n: int) -> bool {
    &&& forall|c: usize| c < n ==> #[trigger] call_requires(enter, (c,))
    &&& forall|c: usize, r: bool|
        c < n && #[trigger] call_ensures(enter, (c,), r) ==> r == may(c)
}

/// Whether `enter` answers for each of `n` cells, and never both ways.
pub open spec fn decides<E: Fn(usize) -> bool>(enter: E, n: int) -> bool {
    &&& forall|c: usize| c < n ==> #[trigger] call_requires(enter, (c,))
    &&& forall|c: usize|
        call_ensures(enter, (c,), true) ==> !(#[trigger] call_ensures(enter, (c,), false))
}

/// Route lengths as `extend` gives them, by bit pattern; a step that it gives
/// nothing for adds nothing.
pub open spec fn lengths<X: Fn(Real, usize, usize) -> Real>(extend: X) -> spec_fn(
    u64,
    usize,
    usize,
) -> u64 {
    |g: u64, a: usize, b: usize|
        if exists|r: Real| #[trigger] call_ensures(extend, (Real { bits: g }, a, b), r) {
            (choose|r: Real| #[trigger] call_ensures(extend, (Real { bits: g }, a, b), r)).bits
        } else {
            g
        }
}

/// Whether `extend` makes a finite, non-negative length no shorter and leaves it
/// finite, and gives one result for one step.
pub open spec fn lengthens<X: Fn(Real, usize, usize) -> Real>(extend: X, n: int) -> bool {
    &&& forall|g: Real, a: usize, b: usize|
        g.bits < INFINITY_64 && a < n && b < n ==> #[trigger] call_requires(extend, (g, a, b))
    &&& forall|g: Real, a: usize, b: usize, r: Real|
        g.bits < INFINITY_64 && a < n && b < n && #[trigger] call_ensures(extend, (g, a, b), r)
            ==> g.bits <= r.bits < INFINITY_64
    &&& forall|g: Real, a: usize, b: usize, r: Real, s: Real| #[trigger]
        call_ensures(extend, (g, a, b), r) && #[trigger] call_ensures(extend, (g, a, b), s) ==> r
            == s
}

/// Ranks as `rank` gives them, by bit pattern.
pub open spec fn ranks<R: Fn(Real, usize) -> Real>(rank: R) -> spec_fn(u64, usize) -> u64 {
    |g: u64, c: usize| (choose|r: Real| #[trigger] call_ensures(rank, (Real { bits: g }, c), r)).bits
}

/// Whether `rank` gives one finite, non-negative rank for one route length and cell.
pub open spec fn orders<R: Fn(Real, usize) -> Real>(rank: R, n: int) -> bool {
    &&& forall|g: Real, c: usize|
        g.bits < INFINITY_64 && c < n ==> #[trigger] call_requires(rank, (g, c))
    &&& forall|g: Real, c: usize, r: Real|
        g.bits < INFINITY_64 && c < n && #[trigger] call_ensures(rank, (g, c), r) ==> r.bits
            < INFINITY_64
    &&& forall|g: Real, c: usize, r: Real, s: Real| #[trigger]
        call_ensures(rank, (g, c), r) && #[trigger] call_ensures(rank, (g, c), s) ==> r == s
}

/// Whether some walk from `start` to `c` has the length `g`.
pub open spec fn is_length(
    edge: spec_fn(usize, usize) -> bool,
    ext: spec_fn(u64, usize, usize) -> u64,
    start: usize,
    c: usize,
    g: u64,
) -> bool {
    exists|w: Seq<usize>| #[trigger]
        walk::walk_between(edge, w, start, c) && walk::walk_cost(ext, w) == g
}

/// Whether `g` is the length of a walk from `start` to `c`, and none is shorter.
pub open spec fn is_least_length(
    edge: spec_fn(usize, usize) -> bool,
    ext: spec_fn(u64, usize, usize) -> u64,
    start: usize,
    c: usize,
    g: u64,
) -> bool {
    &&& is_length(edge, ext, start, c, g)
    &&& forall|w: Seq<usize>| #[trigger]
        walk::walk_between(edge, w, start, c) ==> g <= walk::walk_cost(ext, w)
}

/// Whether some walk from `start` to `c` that visits no cell twice has the length `g`.
pub open spec fn is_plain_length(
    edge: spec_fn(usize, usize) -> bool,
    ext: spec_fn(u64, usize, usize) -> u64,
    start: usize,
    c: usize,
    g: u64,
) -> bool {
    exists|w: Seq<usize>| #[trigger]
        walk::walk_between(edge, w, start, c) && w.no_duplicates() && walk::walk_cost(ext, w) == g
}

/// Whether a longer route stays no shorter by the same step and ranks no lower; whether,
/// of the routes that there are from `start`, none falls in rank by a step; and whether
/// the shortest route to a cell ranks below every longer one that visits no cell twice.
///
/// A cell is expanded once. Where a longer route to it ranks as low as the shortest,
/// the longer one may be the one that is followed.
pub open spec fn consistent(
    edge: spec_fn(usize, usize) -> bool,
    ext: spec_fn(u64, usize, usize) -> u64,
    rk: spec_fn(u64, usize) -> u64,
    n: int,
    start: usize,
) -> bool {
    &&& forall|g: u64, h: u64, a: usize, b: usize|
        g <= h < INFINITY_64 && a < n && b < n ==> #[trigger] ext(g, a, b) <= #[trigger] ext(h, a, b)
    &&& forall|g: u64, h: u64, c: usize|
        g <= h < INFINITY_64 && c < n ==> #[trigger] rk(g, c) <= #[trigger] rk(h, c)
    &&& forall|g: u64, a: usize, b: usize|
        g < INFINITY_64 && a < n && edge(a, b) && is_length(edge, ext, start, a, g) ==> rk(g, a)
            <= rk(#[trigger] ext(g, a, b), b)
    &&& forall|g: u64, h: u64, c: usize|
        g < h < INFINITY_64 && c < n && is_least_length(edge, ext, start, c, g) && is_plain_length(
            edge,
            ext,
            start,
            c,
            h,
        ) ==> #[trigger] rk(g, c) < #[trigger] rk(h, c)
}

/// Routes ranked by their lengths alone are ranked consistently.
pub proof fn law_lengths_rank_consistently(
    edge: spec_fn(usize, usize) -> bool,
    ext: spec_fn(u64, usize, usize) -> u64,
    n: int,
    start: usize,
)
    requires
        forall|a: usize, b: usize| a < n && #[trigger] edge(a, b) ==> b < n,
        forall|g: u64, a: usize, b: usize|
            g < INFINITY_64 && a < n && b < n ==> g <= #[trigger] ext(g, a, b) < INFINITY_64,
        forall|g: u64, h: u64, a: usize, b: usize|
            g <= h < INFINITY_64 && a < n && b < n ==> #[trigger] ext(g, a, b) <= #[trigger] ext(h, a, b),
    ensures
        consistent(edge, ext, |g: u64, c: usize| g, n, start),
{
}

/// Whether cell `c` has a claim to be expanded before the goal: a route of some length leads
/// to it and, where the ranks are consistent, ranks no higher than any route to the goal.
pub open spec fn comes_first(
    edge: spec_fn(usize, usize) -> bool,
    ext: spec_fn(u64, usize, usize) -> u64,
    rk: spec_fn(u64, usize) -> u64,
    n: int,
    start: usize,
    goal: usize,
    c: usize,
) -> bool {
    exists|g: u64| #[trigger]
        is_length(edge, ext, start, c, g) && (consistent(edge, ext, rk, n, start) ==> forall|h: u64|
            #[trigger] is_length(edge, ext, start, goal, h) ==> rk(g, c) <= rk(h, goal))
}

/// Whether more cells than the search expands come before the goal.
pub open spec fn out_of_reach(
    edge: spec_fn(usize, usize) -> bool,
    ext: spec_fn(u64, usize, usize) -> u64,
    rk: spec_fn(u64, usize) -> u64,
    n: int,
    start: usize,
    goal: usize,
) -> bool {
    exists|seen: Seq<bool>|
        seen.len() == n && #[trigger] walk::count_set(seen) > ASTAR_MAX_EXPANSIONS && !seen[goal as int]
            && forall|c: int|
            0 <= c < n && #[trigger] seen[c] ==> comes_first(edge, ext, rk, n, start, goal, c as usize)
}

/// Whether `path` leads from `start` to `goal` without visiting a cell twice and,
/// where the ranks are consistent, costs no more than any walk that does.
pub open spec fn best_route(
    edge: spec_fn(usize, usize) -> bool,
    ext: spec_fn(u64, usize, usize) -> u64,
    rk: spec_fn(u64, usize) -> u64,
    n: int,
    start: usize,
    goal: usize,
    path: Seq<usize>,
) -> bool {
    &&& walk::walk_between(edge, path, start, goal)
    &&& path.no_duplicates()
    &&& forall|k: int| 0 <= k < path.len() ==> path[k] < n
    &&& consistent(edge, ext, rk, n, start) ==> forall|w: Seq<usize>| #[trigger]
        walk::walk_between(edge, w, start, goal) ==> walk::walk_cost(ext, path) <= walk::walk_cost(
            ext,
            w,
        )
}

/// Whether no walk leads from `start` to `goal`, or a search has to expand too many cells
/// before it comes to the goal.
pub open spec fn no_route(
    edge: spec_fn(usize, usize) -> bool,
    ext: spec_fn(u64, usize, usize) -> u64,
    rk: spec_fn(u64, usize) -> u64,
    n: int,
    start: usize,
    goal: usize,
) -> bool {
    !walk::reachable(edge, start, goal) || out_of_reach(edge, ext, rk, n, start, goal)
}

/// Where a search stands: the shortest known length to each cell, the cell it
/// came from, whether the cell has been expanded, and when the length was set.
struct Progress {
    g: Seq<u64>,
    came: Seq<u32>,
    closed: Seq<bool>,
    stamp: Seq<nat>,
    clock: nat,
}

/// Whether cell `a` precedes cell `b` in length, or in time where the lengths are equal.
spec fn precedes(s: Progress, a: int, b: int) -> bool {
    s.g[a] < s.g[b] || (s.g[a] == s.g[b] && s.stamp[a] < s.stamp[b])
}

/// Whether the cells found so far form a tree of steps rooted at `start`.
spec fn rooted(edge: spec_fn(usize, usize) -> bool, n: int, start: usize, s: Progress) -> bool {
    &&& n <= NO_CELL
    &&& start < n
    &&& s.g.len() == n && s.came.len() == n && s.closed.len() == n && s.stamp.len() == n
    &&& s.g[start as int] == 0
    &&& s.came[start as int] == NO_CELL
    &&& forall|c: int| 0 <= c < n ==> ((#[trigger] s.g[c]) < INFINITY_64) == (c == start || s.came[c] != NO_CELL)
    &&& forall|c: int| 0 <= c < n && (#[trigger] s.came[c]) != NO_CELL ==> {
        &&& s.came[c] < n
        &&& s.closed[s.came[c] as int]
        &&& s.g[s.came[c] as int] < INFINITY_64
        &&& edge(s.came[c] as usize, c as usize)
        &&& precedes(s, s.came[c] as int, c)
    }
    &&& forall|c: int| 0 <= c < n ==> (#[trigger] s.stamp[c]) <= s.clock
    &&& forall|c: int| 0 <= c < n && #[trigger] s.closed[c] ==> s.g[c] < INFINITY_64
}

/// Whether the frontier holds every found cell that is not expanded yet, under
/// its current rank, and nothing but ranks of lengths that some cell had.
spec fn awaits(
    rk: spec_fn(u64, usize) -> u64,
    n: int,
    s: Progress,
    open: Multiset<(u64, usize)>,
) -> bool {
    &&& forall|e: (u64, usize)| #[trigger]
        open.contains(e) ==> {
            &&& e.1 < n
            &&& s.g[e.1 as int] < INFINITY_64
            &&& exists|h: u64| s.g[e.1 as int] <= h < INFINITY_64 && e.0 == #[trigger] rk(h, e.1)
        }
    &&& forall|c: usize|
        c < n && (#[trigger] s.g[c as int]) < INFINITY_64 && !s.closed[c as int] ==> open.contains(
            (rk(s.g[c as int], c), c),
        )
}

/// Whether every step out of an expanded cell other than `but` has been followed.
spec fn followed(
    edge: spec_fn(usize, usize) -> bool,
    ext: spec_fn(u64, usize, usize) -> u64,
    n: int,
    s: Progress,
    but: int,
    fair: bool,
) -> bool {
    forall|a: usize, b: usize|
        a < n && a != but && s.closed[a as int] && #[trigger] edge(a, b) ==> {
            &&& b < n
            &&& s.g[b as int] < INFINITY_64
            &&& fair ==> s.g[b as int] <= ext(s.g[a as int], a, b)
        }
}

/// Whether the lengths of expanded cells are least, and each length is that of
/// the step that set it.
spec fn least(
    edge: spec_fn(usize, usize) -> bool,
    ext: spec_fn(u64, usize, usize) -> u64,
    n: int,
    start: usize,
    s: Progress,
) -> bool {
    &&& forall|c: usize, w: Seq<usize>|
        c < n && s.closed[c as int] && #[trigger] walk::walk_between(edge, w, start, c)
            ==> s.g[c as int] <= walk::walk_cost(ext, w)
    &&& forall|c: int|
        0 <= c < n && (#[trigger] s.came[c]) != NO_CELL ==> s.g[c] == ext(
            s.g[s.came[c] as int],
            s.came[c] as usize,
            c as usize,
        )
}

/// Whether no expanded cell ranks above a walk to the goal.
spec fn early(
    edge: spec_fn(usize, usize) -> bool,
    ext: spec_fn(u64, usize, usize) -> u64,
    rk: spec_fn(u64, usize) -> u64,
    n: int,
    start: usize,
    goal: usize,
    s: Progress,
) -> bool {
    forall|c: usize, w: Seq<usize>|
        c < n && s.closed[c as int] && #[trigger] walk::walk_between(edge, w, start, goal)
            ==> #[trigger] rk(s.g[c as int], c) <= rk(walk::walk_cost(ext, w), goal)
}

/// What the caller's functions promise, over bit patterns.
spec fn sound(
    edge: spec_fn(usize, usize) -> bool,
    ext: spec_fn(u64, usize, usize) -> u64,
    n: int,
) -> bool {
    &&& forall|a: usize, b: usize| a < n && #[trigger] edge(a, b) ==> b < n
    &&& forall|g: u64, a: usize, b: usize|
        g < INFINITY_64 && a < n && b < n ==> g <= #[trigger] ext(g, a, b) < INFINITY_64
}

/// A found cell is reached by a walk; where lengths are least, by one of the known length.
proof fn lemma_found_is_reached(
    edge: spec_fn(usize, usize) -> bool,
    ext: spec_fn(u64, usize, usize) -> u64,
    n: int,
    start: usize,
    s: Progress,
    c: int,
    fair: bool,
) -> (w: Seq<usize>)
    requires
        rooted(edge, n, start, s),
        fair ==> least(edge, ext, n, start, s),
        0 <= c < n,
        s.g[c] < INFINITY_64,
    ensures
        walk::walk_between(edge, w, start, c as usize),
        fair ==> walk::walk_cost(ext, w) == s.g[c],
        forall|k: int| 0 <= k < w.len() - 1 ==> precedes(s, (#[trigger] w[k]) as int, c),
        w.no_duplicates(),
    decreases s.g[c], s.stamp[c],
{
    if c == start {
        seq![start]
    } else {
        let from = s.came[c] as int;
        assert(precedes(s, from, c));
        let w = lemma_found_is_reached(edge, ext, n, start, s, from, fair);
        walk::lemma_walk_push(edge, w, c as usize);
        let v = w.push(c as usize);
        assert(v.drop_last() =~= w);
        assert(v[v.len() - 2] == w.last());
        assert forall|k: int| 0 <= k < v.len() - 1 implies precedes(s, (#[trigger] v[k]) as int, c) by {
            if k < w.len() - 1 {
                assert(precedes(s, w[k] as int, from));
            }
        }
        v
    }
}

/// A better way to `next` by a step out of the expanded cell `cell` keeps the tree.
proof fn lemma_improve(
    edge: spec_fn(usize, usize) -> bool,
    ext: spec_fn(u64, usize, usize) -> u64,
    n: int,
    start: usize,
    s: Progress,
    cell: usize,
    next: usize,
    fair: bool,
) -> (t: Progress)
    requires
        sound(edge, ext, n),
        rooted(edge, n, start, s),
        followed(edge, ext, n, s, cell as int, fair),
        fair ==> least(edge, ext, n, start, s),
        cell < n,
        s.closed[cell as int],
        edge(cell, next),
        ext(s.g[cell as int], cell, next) < s.g[next as int],
    ensures
        t == (Progress {
            g: s.g.update(next as int, ext(s.g[cell as int], cell, next)),
            came: s.came.update(next as int, cell as u32),
            closed: s.closed,
            stamp: s.stamp.update(next as int, s.clock + 1),
            clock: s.clock + 1,
        }),
        next < n,
        next != cell,
        next != start,
        rooted(edge, n, start, t),
        followed(edge, ext, n, t, cell as int, fair),
        fair ==> least(edge, ext, n, start, t) && !s.closed[next as int],
{
    let length = ext(s.g[cell as int], cell, next);
    let t = Progress {
        g: s.g.update(next as int, length),
        came: s.came.update(next as int, cell as u32),
        closed: s.closed,
        stamp: s.stamp.update(next as int, s.clock + 1),
        clock: s.clock + 1,
    };
    assert(s.g[cell as int] <= length);
    assert(precedes(t, cell as int, next as int));
    assert forall|c: int| 0 <= c < n && (#[trigger] t.came[c]) != NO_CELL implies {
        &&& t.came[c] < n
        &&& t.closed[t.came[c] as int]
        &&& t.g[t.came[c] as int] < INFINITY_64
        &&& edge(t.came[c] as usize, c as usize)
        &&& precedes(t, t.came[c] as int, c)
    } by {
        if c != next {
            assert(s.came[c] == t.came[c]);
            assert(precedes(s, s.came[c] as int, c));
        }
    }
    assert forall|c: int| 0 <= c < n implies ((#[trigger] t.g[c]) < INFINITY_64) == (c == start
        || t.came[c] != NO_CELL) by {
        if c != next {
            assert(t.g[c] == s.g[c]);
        }
    }
    if fair {
        if s.closed[next as int] {
            let w = lemma_found_is_reached(edge, ext, n, start, s, cell as int, true);
            walk::lemma_walk_push(edge, w, next);
            let v = w.push(next);
            assert(v.drop_last() =~= w);
            assert(v[v.len() - 2] == w.last());
            assert(walk::walk_between(edge, v, start, next));
            assert(false);
        }
        assert forall|c: int| 0 <= c < n && (#[trigger] t.came[c]) != NO_CELL implies t.g[c] == ext(
            t.g[t.came[c] as int],
            t.came[c] as usize,
            c as usize,
        ) by {
            if c != next {
                assert(s.came[c] == t.came[c]);
                assert(s.closed[s.came[c] as int]);
            }
        }
        assert forall|c: usize, w: Seq<usize>|
            c < n && t.closed[c as int] && #[trigger] walk::walk_between(edge, w, start, c) implies t.g[c as int]
            <= walk::walk_cost(ext, w) by {
            assert(c != next);
        }
    }
    assert forall|a: usize, b: usize|
        a < n && a != cell && t.closed[a as int] && #[trigger] edge(a, b) implies {
        &&& b < n
        &&& t.g[b as int] < INFINITY_64
        &&& fair ==> t.g[b as int] <= ext(t.g[a as int], a, b)
    } by {
        assert(s.closed[a as int]);
        assert(s.g[b as int] < INFINITY_64);
    }
    t
}

/// A walk among `n` cells has a finite cost and ends among them.
proof fn lemma_cost_is_finite(
    edge: spec_fn(usize, usize) -> bool,
    ext: spec_fn(u64, usize, usize) -> u64,
    n: int,
    w: Seq<usize>,
)
    requires
        sound(edge, ext, n),
        walk::is_walk(edge, w),
        w.first() < n,
    ensures
        walk::walk_cost(ext, w) < INFINITY_64,
        w.last() < n,
    decreases w.len(),
{
    if w.len() > 1 {
        let p = w.drop_last();
        assert(p =~= w.take(w.len() - 1));
        walk::lemma_walk_prefix(edge, w, w.len() - 1);
        lemma_cost_is_finite(edge, ext, n, p);
        assert(walk::hop(edge, w, w.len() - 1));
        assert(w[w.len() - 2] == p.last());
    }
}

/// Along a walk the ranks never fall.
proof fn lemma_ranks_rise(
    edge: spec_fn(usize, usize) -> bool,
    ext: spec_fn(u64, usize, usize) -> u64,
    rk: spec_fn(u64, usize) -> u64,
    n: int,
    start: usize,
    w: Seq<usize>,
    k: int,
)
    requires
        sound(edge, ext, n),
        consistent(edge, ext, rk, n, start),
        walk::is_walk(edge, w),
        w.first() == start,
        start < n,
        1 <= k <= w.len(),
    ensures
        rk(walk::walk_cost(ext, w.take(k)), w[k - 1]) <= rk(walk::walk_cost(ext, w), w.last()),
    decreases w.len() - k,
{
    if k == w.len() {
        assert(w.take(k) =~= w);
    } else {
        lemma_ranks_rise(edge, ext, rk, n, start, w, k + 1);
        walk::lemma_walk_prefix(edge, w, k);
        lemma_cost_is_finite(edge, ext, n, w.take(k));
        let longer = w.take(k + 1);
        assert(longer.drop_last() =~= w.take(k));
        assert(longer[longer.len() - 2] == w[k - 1]);
        assert(walk::hop(edge, w, k));
        assert(w.take(k).last() == w[k - 1]);
        assert(walk::walk_between(edge, w.take(k), start, w[k - 1]));
        assert(walk::walk_cost(ext, longer) == ext(
            walk::walk_cost(ext, w.take(k)),
            w[k - 1],
            w[k],
        ));
    }
}

/// The first cell of a walk, from place `k` on, that is not expanded.
proof fn lemma_first_open(closed: Seq<bool>, w: Seq<usize>, k: int) -> (at: int)
    requires
        0 <= k < w.len(),
        forall|j: int| 0 <= j < k ==> closed[w[j] as int],
        !closed[w.last() as int],
    ensures
        0 <= at < w.len(),
        !closed[w[at] as int],
        forall|j: int| 0 <= j < at ==> closed[w[j] as int],
    decreases w.len() - k,
{
    if closed[w[k] as int] {
        lemma_first_open(closed, w, k + 1)
    } else {
        k
    }
}

/// Among the walks to a cell there is a shortest one.
proof fn lemma_least_walk(
    edge: spec_fn(usize, usize) -> bool,
    ext: spec_fn(u64, usize, usize) -> u64,
    start: usize,
    c: usize,
    w: Seq<usize>,
) -> (m: Seq<usize>)
    requires
        walk::walk_between(edge, w, start, c),
    ensures
        walk::walk_between(edge, m, start, c),
        walk::walk_cost(ext, m) <= walk::walk_cost(ext, w),
        is_least_length(edge, ext, start, c, walk::walk_cost(ext, m)),
    decreases walk::walk_cost(ext, w),
{
    if exists|v: Seq<usize>| #[trigger]
        walk::walk_between(edge, v, start, c) && walk::walk_cost(ext, v) < walk::walk_cost(ext, w) {
        let v = choose|v: Seq<usize>| #[trigger]
            walk::walk_between(edge, v, start, c) && walk::walk_cost(ext, v) < walk::walk_cost(ext, w);
        lemma_least_walk(edge, ext, start, c, v)
    } else {
        w
    }
}

/// On a walk to a cell that is not expanded stands a waiting cell that ranks no higher.
proof fn lemma_waits_on_walk(
    edge: spec_fn(usize, usize) -> bool,
    ext: spec_fn(u64, usize, usize) -> u64,
    rk: spec_fn(u64, usize) -> u64,
    n: int,
    start: usize,
    s: Progress,
    open: Multiset<(u64, usize)>,
    to: usize,
    w: Seq<usize>,
) -> (x: usize)
    requires
        sound(edge, ext, n),
        consistent(edge, ext, rk, n, start),
        rooted(edge, n, start, s),
        awaits(rk, n, s, open),
        followed(edge, ext, n, s, -1, true),
        least(edge, ext, n, start, s),
        !s.closed[to as int],
        walk::walk_between(edge, w, start, to),
    ensures
        open.contains((rk(s.g[x as int], x), x)),
        rk(s.g[x as int], x) <= rk(walk::walk_cost(ext, w), to),
        walk::walk_cost(ext, w) < INFINITY_64,
{
    // The first cell of the walk that is not expanded yet.
    let k = lemma_first_open(s.closed, w, 0);
    let x = w[k];
    let upto = w.take(k + 1);
    walk::lemma_walk_prefix(edge, w, k + 1);
    lemma_cost_is_finite(edge, ext, n, upto);
    lemma_cost_is_finite(edge, ext, n, w);
    assert(upto.last() == x);
    assert(!s.closed[x as int]);
    assert(s.g[x as int] <= walk::walk_cost(ext, upto)) by {
        if k > 0 {
            let y = w[k - 1];
            let before = w.take(k);
            walk::lemma_walk_prefix(edge, w, k);
            lemma_cost_is_finite(edge, ext, n, before);
            assert(before.last() == y);
            assert(walk::walk_between(edge, before, start, y));
            assert(walk::hop(edge, w, k));
            assert(upto.drop_last() =~= before);
            assert(upto[upto.len() - 2] == y);
            assert(s.closed[y as int]);
            assert(ext(s.g[y as int], y, x) <= ext(walk::walk_cost(ext, before), y, x));
        }
    }
    assert(open.contains((rk(s.g[x as int], x), x)));
    lemma_ranks_rise(edge, ext, rk, n, start, w, k + 1);
    assert(rk(s.g[x as int], x) <= rk(walk::walk_cost(ext, upto), x));
    x
}

/// A waiting cell of least rank has its least length, and ranks no higher than a walk to a
/// goal that is not expanded.
proof fn lemma_taken_is_least(
    edge: spec_fn(usize, usize) -> bool,
    ext: spec_fn(u64, usize, usize) -> u64,
    rk: spec_fn(u64, usize) -> u64,
    n: int,
    start: usize,
    goal: usize,
    s: Progress,
    open: Multiset<(u64, usize)>,
    e: (u64, usize),
)
    requires
        sound(edge, ext, n),
        consistent(edge, ext, rk, n, start),
        rooted(edge, n, start, s),
        awaits(rk, n, s, open),
        followed(edge, ext, n, s, -1, true),
        least(edge, ext, n, start, s),
        open.contains(e),
        forall|x: (u64, usize)| #[trigger] open.contains(x) ==> e.0 <= x.0,
        !s.closed[e.1 as int],
        !s.closed[goal as int],
    ensures
        forall|w: Seq<usize>| #[trigger]
            walk::walk_between(edge, w, start, e.1) ==> s.g[e.1 as int] <= walk::walk_cost(ext, w),
        forall|w: Seq<usize>| #[trigger]
            walk::walk_between(edge, w, start, goal) ==> rk(s.g[e.1 as int], e.1) <= rk(
                walk::walk_cost(ext, w),
                goal,
            ),
{
    let h = choose|h: u64| s.g[e.1 as int] <= h < INFINITY_64 && e.0 == #[trigger] rk(h, e.1);
    assert(rk(s.g[e.1 as int], e.1) <= rk(h, e.1));
    assert forall|any: Seq<usize>| #[trigger]
        walk::walk_between(edge, any, start, e.1) implies s.g[e.1 as int] <= walk::walk_cost(ext, any) by {
        let w = lemma_least_walk(edge, ext, start, e.1, any);
        let x = lemma_waits_on_walk(edge, ext, rk, n, start, s, open, e.1, w);
        let total = walk::walk_cost(ext, w);
        assert(rk(h, e.1) <= rk(total, e.1));
        if total < s.g[e.1 as int] {
            let known = lemma_found_is_reached(edge, ext, n, start, s, e.1 as int, true);
            assert(walk::walk_cost(ext, known) == s.g[e.1 as int]);
            assert(is_plain_length(edge, ext, start, e.1, s.g[e.1 as int]));
            assert(rk(total, e.1) < rk(s.g[e.1 as int], e.1));
        }
    }
    assert forall|w: Seq<usize>| #[trigger] walk::walk_between(edge, w, start, goal) implies rk(
        s.g[e.1 as int],
        e.1,
    ) <= rk(walk::walk_cost(ext, w), goal) by {
        let x = lemma_waits_on_walk(edge, ext, rk, n, start, s, open, goal, w);
    }
}

/// The cells from `start` to `goal` along the steps that a search recorded.
fn reconstruct_cells(
    came_from: &Vec<u32>,
    start: usize,
    goal: usize,
    Ghost(edge): Ghost<spec_fn(usize, usize) -> bool>,
    Ghost(ext): Ghost<spec_fn(u64, usize, usize) -> u64>,
    Ghost(s): Ghost<Progress>,
    Ghost(fair): Ghost<bool>,
) -> (path: Vec<usize>)
    requires
        rooted(edge, s.g.len() as int, start, s),
        fair ==> least(edge, ext, s.g.len() as int, start, s),
        came_from@ == s.came,
        goal < s.g.len(),
        s.g[goal as int] < INFINITY_64,
    ensures
        walk::walk_between(edge, path@, start, goal),
        path@.no_duplicates(),
        forall|k: int| 0 <= k < path@.len() ==> path@[k] < s.g.len(),
        fair ==> walk::walk_cost(ext, path@) == s.g[goal as int],
{
    let ghost n = s.g.len() as int;
    let mut back: Vec<usize> = Vec::new();
    back.push(goal);
    let mut at: usize = goal;
    while came_from[at] != NO_CELL
        invariant
            n == s.g.len(),
            rooted(edge, n, start, s),
            came_from@ == s.came,
            at < n,
            s.g[at as int] < INFINITY_64,
            back@.len() >= 1,
            back@[0] == goal,
            back@.last() == at,
            forall|k: int| 0 <= k < back@.len() ==> back@[k] < n,
            forall|k: int| 0 <= k < back@.len() - 1 ==> precedes(s, at as int, #[trigger] back@[k] as int),
            forall|i: int, j: int| 0 <= i < j < back@.len() ==> back@[i] != back@[j],
            forall|k: int| 1 <= k < back@.len() ==> s.came[back@[k - 1] as int] == #[trigger] back@[k],
        decreases s.g[at as int], s.stamp[at as int],
    {
        let from: usize = came_from[at] as usize;
        proof {
            assert(precedes(s, from as int, at as int));
            let grown = back@.push(from);
            assert forall|k: int| 0 <= k < grown.len() - 1 implies precedes(
                s,
                from as int,
                #[trigger] grown[k] as int,
            ) by {
                if k < back@.len() - 1 {
                    assert(precedes(s, at as int, back@[k] as int));
                }
            }
            assert forall|i: int, j: int| 0 <= i < j < grown.len() implies grown[i] != grown[j] by {
                if j == grown.len() - 1 {
                    assert(precedes(s, from as int, grown[i] as int));
                }
            }
        }
        back.push(from);
        at = from;
    }
    assert(at == start) by {
        assert(s.g[at as int] < INFINITY_64);
    }
    let ghost total = back@.len() as int;
    let mut path: Vec<usize> = Vec::new();
    let mut left: usize = back.len();
    while left > 0
        invariant
            0 <= left <= total,
            total == back@.len(),
            path@.len() == total - left,
            forall|k: int| 0 <= k < path@.len() ==> path@[k] == back@[total - 1 - k],
        decreases left,
    {
        left -= 1;
        path.push(back[left]);
    }
    proof {
        assert forall|k: int| 1 <= k < path@.len() implies #[trigger] walk::hop(edge, path@, k) by {
            let b = total - 1 - k;
            assert(s.came[back@[b] as int] == back@[b + 1]) by {
                assert(back@[b + 1] == s.came[back@[b + 1 - 1] as int]);
            }
            assert(edge(s.came[path@[k] as int] as usize, path@[k]));
        }
        assert(walk::walk_between(edge, path@, start, goal));
        if fair {
            lemma_recorded_cost(edge, ext, start, s, path@);
        }
    }
    path
}

/// Where lengths are those of the steps that set them, a walk along recorded
/// steps costs the length of its last cell.
proof fn lemma_recorded_cost(
    edge: spec_fn(usize, usize) -> bool,
    ext: spec_fn(u64, usize, usize) -> u64,
    start: usize,
    s: Progress,
    path: Seq<usize>,
)
    requires
        rooted(edge, s.g.len() as int, start, s),
        least(edge, ext, s.g.len() as int, start, s),
        path.len() >= 1,
        path[0] == start,
        forall|k: int| 0 <= k < path.len() ==> path[k] < s.g.len(),
        forall|k: int| 1 <= k < path.len() ==> s.came[(#[trigger] path[k]) as int] == path[k - 1],
    ensures
        walk::walk_cost(ext, path) == s.g[path.last() as int],
    decreases path.len(),
{
    if path.len() > 1 {
        let front = path.drop_last();
        assert forall|k: int| 1 <= k < front.len() implies s.came[(#[trigger] front[k]) as int]
            == front[k - 1] by {
            assert(s.came[path[k] as int] == path[k - 1]);
        }
        lemma_recorded_cost(edge, ext, start, s, front);
        assert(s.came[path.last() as int] == path[path.len() - 2]);
        assert(s.came[path.last() as int] != NO_CELL);
        assert(front.last() == path[path.len() - 2]);
    }
}

/// Looks for a walk from `start` to `goal` over `n_cells` numbered cells.
///
/// A step leads to a cell that `neighbours` lists and `enter` lets in.
/// `extend(length, a, b)` is the length of a route of length `length` to `a`
/// made longer by the step to `b`; `rank(length, c)` says how promising a route
/// of that length to `c` is, the lower the better.
///
/// The walk found visits no cell twice. Where none is found, none exists, or
/// more than [`ASTAR_MAX_EXPANSIONS`] cells can be reached. Where the ranks are
/// consistent, no walk is shorter than the one found.
pub(crate) fn search_cells<
    N: Fn(usize) -> Vec<usize>,
    E: Fn(usize) -> bool,
    X: Fn(Real, usize, usize) -> Real,
    R: Fn(Real, usize) -> Real,
>(
    n_cells: usize,
    start: usize,
    goal: usize,
    neighbours: N,
    enter: E,
    extend: X,
    rank: R,
    Ghost(nb): Ghost<spec_fn(usize) -> Seq<usize>>,
    Ghost(may): Ghost<spec_fn(usize) -> bool>,
) -> (found: Option<Vec<usize>>)
    requires
        n_cells <= u32::MAX,
        start < n_cells,
        goal < n_cells,
        snap::lists(neighbours, nb, n_cells as int),
        answers(enter, may, n_cells as int),
        lengthens(extend, n_cells as int),
        orders(rank, n_cells as int),
    ensures
        found matches Some(path) ==> best_route(
            open_steps(nb, may),
            lengths(extend),
            ranks(rank),
            n_cells as int,
            start,
            goal,
            path@,
        ),
        found is None ==> no_route(
            open_steps(nb, may),
            lengths(extend),
            ranks(rank),
            n_cells as int,
            start,
            goal,
        ),
{
    let ghost n = n_cells as int;
    let ghost edge = open_steps(nb, may);
    let ghost ext = lengths(extend);
    let ghost rk = ranks(rank);
    let ghost fair = consistent(edge, ext, rk, n, start);
    let mut g: Vec<u64> = vec![INFINITY_64; n_cells];
    let mut came_from: Vec<u32> = vec![NO_CELL; n_cells];
    let mut closed: Vec<bool> = vec![false; n_cells];
    let mut open: Frontier = Frontier::new();
    let ghost mut stamp: Seq<nat> = Seq::new(n_cells as nat, |k: int| 0nat);
    let ghost mut clock: nat = 0;
    g.set(start, 0);
    let first: Real = rank(Real { bits: 0 }, start);
    open.push(first.bits, start);
    let mut expansions: usize = 0;
    proof {
        lemma_functions_are_sound(neighbours, extend, nb, may, n);
        walk::lemma_count_set_none(closed@);
        assert(rk(0, start) == first.bits);
        let s = Progress { g: g@, came: came_from@, closed: closed@, stamp, clock };
        assert(rooted(edge, n, start, s));
        assert forall|e: (u64, usize)| #[trigger] open@.contains(e) implies {
            &&& e.1 < n
            &&& s.g[e.1 as int] < INFINITY_64
            &&& exists|h: u64| s.g[e.1 as int] <= h < INFINITY_64 && e.0 == #[trigger] rk(h, e.1)
        } by {
            assert(e == (first.bits, start));
            assert(e.0 == rk(0, e.1));
        }
        assert(awaits(rk, n, s, open@));
        assert(followed(edge, ext, n, s, -1, fair));
        assert(least(edge, ext, n, start, s));
    }
    loop
        invariant
            n == n_cells,
            n <= u32::MAX,
            start < n_cells,
            goal < n_cells,
            snap::lists(neighbours, nb, n),
            answers(enter, may, n),
            lengthens(extend, n),
            orders(rank, n),
            edge == open_steps(nb, may),
            ext == lengths(extend),
            rk == ranks(rank),
            fair == consistent(edge, ext, rk, n, start),
            sound(edge, ext, n),
            open.wf(),
            rooted(edge, n, start, (Progress { g: g@, came: came_from@, closed: closed@, stamp, clock })),
            awaits(rk, n, (Progress { g: g@, came: came_from@, closed: closed@, stamp, clock }), open@),
            followed(edge, ext, n, (Progress { g: g@, came: came_from@, closed: closed@, stamp, clock }), -1, fair),
            fair ==> least(edge, ext, n, start, (Progress { g: g@, came: came_from@, closed: closed@, stamp, clock })),
            fair ==> early(edge, ext, rk, n, start, goal, (Progress { g: g@, came: came_from@, closed: closed@, stamp, clock })),
            !closed@[goal as int],
            walk::count_set(closed@) == expansions,
            expansions <= ASTAR_MAX_EXPANSIONS,
        decreases ASTAR_MAX_EXPANSIONS - expansions, open@.len(),
    {
        let ghost s0 = Progress { g: g@, came: came_from@, closed: closed@, stamp, clock };
        let ghost open0 = open@;
        let taken = open.pop();
        let cell: usize = match taken {
            Some((_, cell)) => cell,
            None => {
                proof {
                    lemma_exhausted(edge, ext, rk, n, start, goal, s0, open0, fair);
                }
                return None;
            },
        };
        let ghost e = taken->Some_0;
        proof {
            assert(open0.contains(e));
        }
        if closed[cell] {
            proof {
                assert forall|c: usize|
                    c < n && (#[trigger] s0.g[c as int]) < INFINITY_64 && !s0.closed[c as int] implies open@.contains(
                    (rk(s0.g[c as int], c), c),
                ) by {
                    assert(open0.contains((rk(s0.g[c as int], c), c)));
                    assert((rk(s0.g[c as int], c), c) != e);
                }
                assert forall|x: (u64, usize)| #[trigger] open@.contains(x) implies open0.contains(x) by {}
                assert(awaits(rk, n, s0, open@));
            }
            continue ;
        }
        proof {
            walk::lemma_count_set_update(closed@, cell as int);
            if fair {
                lemma_taken_is_least(edge, ext, rk, n, start, goal, s0, open0, e);
            }
        }
        closed.set(cell, true);
        let ghost s1 = Progress { g: g@, came: came_from@, closed: closed@, stamp, clock };
        proof {
            assert(rooted(edge, n, start, s1)) by {
                assert forall|c: int| 0 <= c < n && (#[trigger] s1.came[c]) != NO_CELL implies {
                    &&& s1.came[c] < n
                    &&& s1.closed[s1.came[c] as int]
                    &&& s1.g[s1.came[c] as int] < INFINITY_64
                    &&& edge(s1.came[c] as usize, c as usize)
                    &&& precedes(s1, s1.came[c] as int, c)
                } by {
                    assert(precedes(s0, s0.came[c] as int, c));
                }
            }
            if fair {
                assert forall|c: usize, w: Seq<usize>|
                    c < n && s1.closed[c as int] && #[trigger] walk::walk_between(edge, w, start, c) implies s1.g[c as int]
                    <= walk::walk_cost(ext, w) by {
                    if c != cell {
                        assert(s0.closed[c as int]);
                    }
                }
                assert(least(edge, ext, n, start, s1));
                assert forall|c: usize, w: Seq<usize>|
                    c < n && s1.closed[c as int] && #[trigger] walk::walk_between(edge, w, start, goal) implies
                    #[trigger] rk(s1.g[c as int], c) <= rk(walk::walk_cost(ext, w), goal) by {
                    if c != cell {
                        assert(s0.closed[c as int]);
                        assert(rk(s0.g[c as int], c) <= rk(walk::walk_cost(ext, w), goal));
                    }
                }
                assert(early(edge, ext, rk, n, start, goal, s1));
            }
            assert(followed(edge, ext, n, s1, cell as int, fair));
            assert forall|c: usize|
                c < n && (#[trigger] s1.g[c as int]) < INFINITY_64 && !s1.closed[c as int] implies open@.contains(
                (rk(s1.g[c as int], c), c),
            ) by {
                assert(open0.contains((rk(s0.g[c as int], c), c)));
                assert((rk(s0.g[c as int], c), c) != e);
            }
            assert forall|x: (u64, usize)| #[trigger] open@.contains(x) implies open0.contains(x) by {}
            assert(awaits(rk, n, s1, open@));
        }
        if cell == goal {
            let path: Vec<usize> = reconstruct_cells(
                &came_from,
                start,
                goal,
                Ghost(edge),
                Ghost(ext),
                Ghost(s1),
                Ghost(fair),
            );
            return Some(path);
        }
        if expansions == ASTAR_MAX_EXPANSIONS {
            proof {
                assert forall|c: int| 0 <= c < n && #[trigger] closed@[c] implies comes_first(
                    edge,
                    ext,
                    rk,
                    n,
                    start,
                    goal,
                    c as usize,
                ) by {
                    let w = lemma_found_is_reached(edge, ext, n, start, s1, c, fair);
                    let g = walk::walk_cost(ext, w);
                    assert(is_length(edge, ext, start, c as usize, g));
                    if fair {
                        assert forall|h: u64| #[trigger] is_length(edge, ext, start, goal, h) implies rk(
                            g,
                            c as usize,
                        ) <= rk(h, goal) by {
                            let v = choose|v: Seq<usize>| #[trigger]
                                walk::walk_between(edge, v, start, goal) && walk::walk_cost(ext, v) == h;
                            assert(rk(s1.g[c], c as usize) <= rk(walk::walk_cost(ext, v), goal));
                        }
                    }
                }
                assert(walk::count_set(closed@) > ASTAR_MAX_EXPANSIONS);
                assert(out_of_reach(edge, ext, rk, n, start, goal));
            }
            return None;
        }
        expansions += 1;
        let list: Vec<usize> = neighbours(cell);
        let mut k: usize = 0;
        while k < list.len()
            invariant
                n == n_cells,
                n <= u32::MAX,
                start < n_cells,
                goal < n_cells,
                cell < n_cells,
                cell != goal,
                snap::lists(neighbours, nb, n),
                answers(enter, may, n),
                lengthens(extend, n),
                orders(rank, n),
                edge == open_steps(nb, may),
                ext == lengths(extend),
                rk == ranks(rank),
                fair == consistent(edge, ext, rk, n, start),
                sound(edge, ext, n),
                open.wf(),
                list@ == nb(cell),
                rooted(edge, n, start, (Progress { g: g@, came: came_from@, closed: closed@, stamp, clock })),
                awaits(rk, n, (Progress { g: g@, came: came_from@, closed: closed@, stamp, clock }), open@),
                followed(edge, ext, n, (Progress { g: g@, came: came_from@, closed: closed@, stamp, clock }), cell as int, fair),
                fair ==> least(edge, ext, n, start, (Progress { g: g@, came: came_from@, closed: closed@, stamp, clock })),
                fair ==> early(edge, ext, rk, n, start, goal, (Progress { g: g@, came: came_from@, closed: closed@, stamp, clock })),
                closed@ == s1.closed,
                closed@[cell as int],
                !closed@[goal as int],
                k <= list@.len(),
                forall|m: int| 0 <= m < k && edge(cell, #[trigger] list@[m]) ==> {
                    &&& g@[list@[m] as int] < INFINITY_64
                    &&& fair ==> g@[list@[m] as int] <= ext(g@[cell as int], cell, list@[m])
                },
            decreases list@.len() - k,
        {
            let next: usize = list[k];
            let ghost s2 = Progress { g: g@, came: came_from@, closed: closed@, stamp, clock };
            let ghost open2 = open@;
            proof {
                assert(nb(cell)[k as int] < n);
                assert(nb(cell).contains(next));
            }
            if enter(next) {
                assert(edge(cell, next));
                assert(g@[cell as int] < INFINITY_64);
                let length: Real = extend(Real { bits: g[cell] }, cell, next);
                assert(ext(g@[cell as int], cell, next) == length.bits);
                if length.bits < g[next] {
                    let place: Real = rank(length, next);
                    assert(rk(length.bits, next) == place.bits);
                    g.set(next, length.bits);
                    came_from.set(next, cell as u32);
                    open.push(place.bits, next);
                    proof {
                        let s3 = lemma_improve(edge, ext, n, start, s2, cell, next, fair);
                        stamp = s3.stamp;
                        clock = s3.clock;
                        assert(s3.g =~= g@);
                        assert(s3.came =~= came_from@);
                        assert forall|e: (u64, usize)| #[trigger] open@.contains(e) implies {
                            &&& e.1 < n
                            &&& s3.g[e.1 as int] < INFINITY_64
                            &&& exists|h: u64|
                                s3.g[e.1 as int] <= h < INFINITY_64 && e.0 == #[trigger] rk(h, e.1)
                        } by {
                            if e == (place.bits, next) {
                                assert(e.0 == rk(length.bits, e.1));
                            } else {
                                assert(open2.contains(e));
                                let h = choose|h: u64|
                                    s2.g[e.1 as int] <= h < INFINITY_64 && e.0 == #[trigger] rk(h, e.1);
                                assert(e.0 == rk(h, e.1) && s3.g[e.1 as int] <= h);
                            }
                        }
                        assert forall|c: usize|
                            c < n && (#[trigger] s3.g[c as int]) < INFINITY_64 && !s3.closed[c as int] implies open@.contains(
                            (rk(s3.g[c as int], c), c),
                        ) by {
                            if c == next {
                                assert(open@.contains((place.bits, next)));
                            } else {
                                assert(s2.g[c as int] == s3.g[c as int]);
                                assert(open2.contains((rk(s2.g[c as int], c), c)));
                            }
                        }
                        assert(awaits(rk, n, s3, open@));
                        if fair {
                            assert forall|c: usize, w: Seq<usize>|
                                c < n && s3.closed[c as int] && #[trigger] walk::walk_between(
                                    edge,
                                    w,
                                    start,
                                    goal,
                                ) implies #[trigger] rk(s3.g[c as int], c) <= rk(
                                walk::walk_cost(ext, w),
                                goal,
                            ) by {
                                assert(c != next);
                                assert(rk(s2.g[c as int], c) <= rk(walk::walk_cost(ext, w), goal));
                            }
                        }
                        assert forall|m: int| 0 <= m < k + 1 && edge(cell, #[trigger] list@[m]) implies {
                            &&& g@[list@[m] as int] < INFINITY_64
                            &&& fair ==> g@[list@[m] as int] <= ext(g@[cell as int], cell, list@[m])
                        } by {
                            assert(nb(cell)[m] < n);
                        }
                    }
                }
            } else {
                assert(!edge(cell, next));
            }
            k += 1;
        }
        proof {
            let s4 = Progress { g: g@, came: came_from@, closed: closed@, stamp, clock };
            assert forall|a: usize, b: usize|
                a < n && a != -1 && s4.closed[a as int] && #[trigger] edge(a, b) implies {
                &&& b < n
                &&& s4.g[b as int] < INFINITY_64
                &&& fair ==> s4.g[b as int] <= ext(s4.g[a as int], a, b)
            } by {
                if a == cell {
                    let m = choose|m: int| 0 <= m < list@.len() && list@[m] == b;
                    assert(edge(cell, list@[m]));
                }
            }
            assert(followed(edge, ext, n, s4, -1, fair));
        }
    }
}

/// The caller's promises on its functions hold over bit patterns.
proof fn lemma_functions_are_sound<
    N: Fn(usize) -> Vec<usize>,
    X: Fn(Real, usize, usize) -> Real,
>(
    neighbours: N,
    extend: X,
    nb: spec_fn(usize) -> Seq<usize>,
    may: spec_fn(usize) -> bool,
    n: int,
)
    requires
        snap::lists(neighbours, nb, n),
        lengthens(extend, n),
    ensures
        sound(open_steps(nb, may), lengths(extend), n),
{
    let edge = open_steps(nb, may);
    assert forall|a: usize, b: usize| a < n && #[trigger] edge(a, b) implies b < n by {
        let k = choose|k: int| 0 <= k < nb(a).len() && #[trigger] nb(a)[k] == b;
        assert(nb(a)[k] < n);
    }
}

/// Where nothing waits and the goal is not expanded, no walk leads to the goal.
proof fn lemma_exhausted(
    edge: spec_fn(usize, usize) -> bool,
    ext: spec_fn(u64, usize, usize) -> u64,
    rk: spec_fn(u64, usize) -> u64,
    n: int,
    start: usize,
    goal: usize,
    s: Progress,
    open: Multiset<(u64, usize)>,
    fair: bool,
)
    requires
        rooted(edge, n, start, s),
        awaits(rk, n, s, open),
        followed(edge, ext, n, s, -1, fair),
        open == Multiset::<(u64, usize)>::empty(),
        goal < n,
        !s.closed[goal as int],
    ensures
        !walk::reachable(edge, start, goal),
{
    if walk::reachable(edge, start, goal) {
        let w = choose|w: Seq<usize>| walk::walk_between(edge, w, start, goal);
        lemma_walk_is_closed(edge, ext, rk, n, start, s, open, fair, w);
    }
}

/// Where nothing waits, every cell of a walk from the start is expanded.
proof fn lemma_walk_is_closed(
    edge: spec_fn(usize, usize) -> bool,
    ext: spec_fn(u64, usize, usize) -> u64,
    rk: spec_fn(u64, usize) -> u64,
    n: int,
    start: usize,
    s: Progress,
    open: Multiset<(u64, usize)>,
    fair: bool,
    w: Seq<usize>,
)
    requires
        rooted(edge, n, start, s),
        awaits(rk, n, s, open),
        followed(edge, ext, n, s, -1, fair),
        open == Multiset::<(u64, usize)>::empty(),
        walk::is_walk(edge, w),
        w.first() == start,
    ensures
        w.last() < n,
        s.closed[w.last() as int],
    decreases w.len(),
{
    let c = w.last();
    if w.len() > 1 {
        walk::lemma_walk_prefix(edge, w, w.len() - 1);
        let front = w.take(w.len() - 1);
        lemma_walk_is_closed(edge, ext, rk, n, start, s, open, fair, front);
        assert(walk::hop(edge, w, w.len() - 1));
        assert(edge(front.last(), c));
    }
    assert(s.g[c as int] < INFINITY_64);
    if !s.closed[c as int] {
        assert(open.contains((rk(s.g[c as int], c), c)));
    }
}

} // verus!
