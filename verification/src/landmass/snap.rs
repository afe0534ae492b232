//! Snapping a cell to the nearest sea cell.
use vstd::prelude::*;
use crate::landmass::walk;

verus! {

/// Rings that are searched round a cell before the search for sea gives up.
pub const SNAP_TO_SEA_MAX_RING: usize = 32;

/// The edges from each cell `a` to the cells `nb(a)`.
pub open spec fn steps(nb: spec_fn(usize) -> Seq<usize>) -> spec_fn(usize, usize) -> bool {
    |a: usize, b: usize| nb(a).contains(b)
}

/// Whether `neighbours` lists `nb(a)` for each cell `a` of `n` cells, all of them
/// among the `n`.
pub open spec fn lists<N: Fn(usize) -> Vec<usize>>(
    neighbours: N,
    nb: spec_fn(usize) -> Seq<usize>,
    n: int,
) -> bool {
    &&& forall|a: usize| a < n ==> #[trigger] call_requires(neighbours, (a,))
    &&& forall|a: usize, v: Vec<usize>|
        a < n && #[trigger] call_ensures(neighbours, (a,), v) ==> v@ == nb(a)
    &&& forall|a: usize, k: int| a < n && 0 <= k < nb(a).len() ==> (#[trigger] nb(a)[k]) < n
}

/// Whether `c` is a sea cell and no sea cell takes fewer steps to reach from `at`.
pub open spec fn nearest_sea(
    edge: spec_fn(usize, usize) -> bool,
    sea: Seq<bool>,
    at: usize,
    c: usize,
    k: nat,
) -> bool {
    &&& c < sea.len()
    &&& sea[c as int]
    &&& walk::within_steps(edge, at, c, k)
    &&& forall|x: usize, j: nat|
        x < sea.len() && j < k && #[trigger] walk::within_steps(edge, at, x, j) ==> !sea[x as int]
}

/// The cells `known`, and behind them those of `more` that are not among them, each once.
pub open spec fn joined(known: Seq<usize>, more: Seq<usize>) -> Seq<usize>
    decreases more.len(),
{
    if more.len() == 0 {
        known
    } else {
        let front = joined(known, more.drop_last());
        if front.contains(more.last()) {
            front
        } else {
            front.push(more.last())
        }
    }
}

/// The cells `known`, and behind them the neighbours of those from place `lo` up to
/// place `hi`.
pub open spec fn spread(
    nb: spec_fn(usize) -> Seq<usize>,
    known: Seq<usize>,
    lo: int,
    hi: int,
) -> Seq<usize>
    decreases hi - lo,
{
    if hi <= lo {
        known
    } else {
        joined(spread(nb, known, lo, hi - 1), nb(known[hi - 1]))
    }
}

/// How many cells are at most `k` steps from `at`, where `k` may be below 0.
pub open spec fn inside(nb: spec_fn(usize) -> Seq<usize>, at: usize, k: int) -> int
    decreases (if k < 0 { 0 } else { k + 1 }), 1int,
{
    if k < 0 {
        0
    } else {
        by_rings(nb, at, k).len() as int
    }
}

/// The cells at most `k` steps from `at`, ring by ring: first `at` itself, and after
/// each ring the neighbours of its cells, in the order of the cells and of their lists.
pub open spec fn by_rings(nb: spec_fn(usize) -> Seq<usize>, at: usize, k: int) -> Seq<usize>
    decreases (if k < 0 { 0 } else { k + 1 }), 0int,
{
    if k <= 0 {
        seq![at]
    } else {
        let known = by_rings(nb, at, k - 1);
        spread(nb, known, inside(nb, at, k - 2), known.len() as int)
    }
}

/// Whether `c` is a sea cell, and none of the cells that come before it ring by ring is.
pub open spec fn first_sea(
    nb: spec_fn(usize) -> Seq<usize>,
    sea: Seq<bool>,
    at: usize,
    c: usize,
) -> bool {
    let order = by_rings(nb, at, SNAP_TO_SEA_MAX_RING as int);
    exists|q: int|
        0 <= q < order.len() && #[trigger] order[q] == c && sea[c as int] && forall|p: int|
            0 <= p < q ==> !sea[(#[trigger] order[p]) as int]
}

/// Whether `c` is a sea cell within the ring limit of `at`, no sea cell is fewer steps
/// away, and of those as few steps away it is the first.
pub open spec fn snapped(
    nb: spec_fn(usize) -> Seq<usize>,
    sea: Seq<bool>,
    at: usize,
    c: usize,
) -> bool {
    &&& exists|k: nat|
        k <= SNAP_TO_SEA_MAX_RING && #[trigger] nearest_sea(steps(nb), sea, at, c, k)
    &&& first_sea(nb, sea, at, c)
}

/// At most one cell is the one to snap to.
pub proof fn law_snaps_to_one_cell(
    nb: spec_fn(usize) -> Seq<usize>,
    sea: Seq<bool>,
    at: usize,
    c: usize,
    d: usize,
)
    requires
        snapped(nb, sea, at, c),
        snapped(nb, sea, at, d),
    ensures
        c == d,
{
    let order = by_rings(nb, at, SNAP_TO_SEA_MAX_RING as int);
    let q = choose|q: int|
        0 <= q < order.len() && #[trigger] order[q] == c && sea[c as int] && forall|p: int|
            0 <= p < q ==> !sea[(#[trigger] order[p]) as int];
    let r = choose|q: int|
        0 <= q < order.len() && #[trigger] order[q] == d && sea[d as int] && forall|p: int|
            0 <= p < q ==> !sea[(#[trigger] order[p]) as int];
    if q < r {
        assert(!sea[order[q] as int]);
    } else if r < q {
        assert(!sea[order[r] as int]);
    }
}

/// What is known stays in front.
proof fn lemma_joined_keeps(known: Seq<usize>, more: Seq<usize>)
    ensures
        known.len() <= joined(known, more).len(),
        joined(known, more).take(known.len() as int) == known,
    decreases more.len(),
{
    if more.len() > 0 {
        lemma_joined_keeps(known, more.drop_last());
        let front = joined(known, more.drop_last());
        assert(joined(known, more).take(known.len() as int) =~= front.take(known.len() as int));
    } else {
        assert(known.take(known.len() as int) =~= known);
    }
}

/// What is known stays in front.
proof fn lemma_spread_keeps(nb: spec_fn(usize) -> Seq<usize>, known: Seq<usize>, lo: int, hi: int)
    ensures
        known.len() <= spread(nb, known, lo, hi).len(),
        spread(nb, known, lo, hi).take(known.len() as int) == known,
    decreases hi - lo,
{
    if hi <= lo {
        assert(known.take(known.len() as int) =~= known);
    } else {
        lemma_spread_keeps(nb, known, lo, hi - 1);
        let before = spread(nb, known, lo, hi - 1);
        lemma_joined_keeps(before, nb(known[hi - 1]));
        let after = spread(nb, known, lo, hi);
        assert(after.take(known.len() as int) =~= after.take(before.len() as int).take(
            known.len() as int,
        ));
    }
}

/// Fewer rings are a front part of more rings.
proof fn lemma_rings_are_prefixes(nb: spec_fn(usize) -> Seq<usize>, at: usize, j: int, k: int)
    requires
        0 <= j <= k,
    ensures
        by_rings(nb, at, j).len() <= by_rings(nb, at, k).len(),
        by_rings(nb, at, k).take(by_rings(nb, at, j).len() as int) == by_rings(nb, at, j),
    decreases k - j,
{
    let few = by_rings(nb, at, j);
    if j == k {
        assert(few.take(few.len() as int) =~= few);
    } else {
        lemma_rings_are_prefixes(nb, at, j, k - 1);
        let known = by_rings(nb, at, k - 1);
        lemma_spread_keeps(nb, known, inside(nb, at, k - 2), known.len() as int);
        let many = by_rings(nb, at, k);
        assert(many.take(few.len() as int) =~= many.take(known.len() as int).take(few.len() as int));
    }
}

/// The cells of a queue.
spec fn cells_of(queue: Seq<(usize, usize)>) -> Seq<usize> {
    queue.map_values(|e: (usize, usize)| e.0)
}

/// Whether the queue holds the first rings up to ring `r`, and behind them what comes
/// of the cells of ring `r` before `head`.
spec fn ring_by_ring(
    nb: spec_fn(usize) -> Seq<usize>,
    at: usize,
    queue: Seq<(usize, usize)>,
    head: int,
    r: int,
) -> bool {
    let known = by_rings(nb, at, r);
    &&& 0 <= r <= SNAP_TO_SEA_MAX_RING
    &&& inside(nb, at, r - 1) <= head <= known.len() <= queue.len()
    &&& cells_of(queue) == (if r < SNAP_TO_SEA_MAX_RING {
        spread(nb, known, inside(nb, at, r - 1), head)
    } else {
        known
    })
    &&& forall|q: int|
        inside(nb, at, r - 1) <= q < known.len() ==> (#[trigger] queue[q]).1 == r
    &&& forall|q: int| known.len() <= q < queue.len() ==> (#[trigger] queue[q]).1 == r + 1
}

/// Where ring `r` is done with and the queue goes on, ring `r + 1` is next.
proof fn lemma_next_ring(
    nb: spec_fn(usize) -> Seq<usize>,
    at: usize,
    queue: Seq<(usize, usize)>,
    head: int,
    r: int,
) -> (next: int)
    requires
        ring_by_ring(nb, at, queue, head, r),
        head < queue.len(),
        queue[head].1 <= SNAP_TO_SEA_MAX_RING,
    ensures
        ring_by_ring(nb, at, queue, head, next),
        queue[head].1 == next,
        head < by_rings(nb, at, next).len(),
        by_rings(nb, at, next)[head] == queue[head].0,
{
    let known = by_rings(nb, at, r);
    assert(cells_of(queue)[head] == queue[head].0);
    if head < known.len() {
        lemma_spread_keeps(nb, known, inside(nb, at, r - 1), head);
        if r < SNAP_TO_SEA_MAX_RING {
            let more = spread(nb, known, inside(nb, at, r - 1), head);
            assert(more.take(known.len() as int)[head] == more[head]);
        }
        r
    } else {
        assert(queue[head].1 == r + 1);
        assert(by_rings(nb, at, r + 1) == cells_of(queue));
        assert(inside(nb, at, r) == known.len());
        r + 1
    }
}

/// Whether no sea cell stands within the ring limit of `at`.
pub open spec fn landlocked(
    edge: spec_fn(usize, usize) -> bool,
    sea: Seq<bool>,
    at: usize,
) -> bool {
    forall|x: usize|
        x < sea.len() && #[trigger] walk::within_steps(edge, at, x, SNAP_TO_SEA_MAX_RING as nat)
            ==> !sea[x as int]
}

/// What holds between two steps of the ring search. `queue` holds the cells
/// seen so far, each with its ring; those before `head` are done with.
spec fn ring_search(
    edge: spec_fn(usize, usize) -> bool,
    sea: Seq<bool>,
    at: usize,
    seen: Seq<bool>,
    queue: Seq<(usize, usize)>,
    head: int,
) -> bool {
    &&& seen.len() == sea.len()
    &&& 0 <= head <= queue.len()
    &&& queue.len() > 0
    &&& queue[0] == (at, 0usize)
    &&& forall|q: int| 0 <= q < queue.len() ==> {
        let e = #[trigger] queue[q];
        e.0 < sea.len() && seen[e.0 as int] && e.1 <= SNAP_TO_SEA_MAX_RING && walk::within_steps(
            edge,
            at,
            e.0,
            e.1 as nat,
        )
    }
    &&& forall|p: int, q: int| 0 <= p <= q < queue.len() ==> (#[trigger] queue[p]).1 <= (#[trigger] queue[q]).1
    &&& forall|q: int| 0 <= q < queue.len() && head < queue.len() ==> (#[trigger] queue[q]).1 <= queue[head].1 + 1
    &&& forall|x: usize| x < sea.len() && #[trigger] seen[x as int] ==> exists|q: int|
        0 <= q < queue.len() && (#[trigger] queue[q]).0 == x
    &&& forall|q: int| 0 <= q < head ==> !sea[(#[trigger] queue[q]).0 as int]
    &&& forall|q: int, x: usize|
        0 <= q < head && (#[trigger] queue[q]).1 < SNAP_TO_SEA_MAX_RING && x < sea.len() && #[trigger] edge(
            queue[q].0,
            x,
        ) ==> exists|r: int|
            0 <= r < queue.len() && (#[trigger] queue[r]).0 == x && queue[r].1 <= queue[q].1 + 1
}

/// Whatever is reached in at most `k` steps stands in the queue under ring `k`
/// or lower, as long as every lower ring is done with.
proof fn lemma_rings_complete(
    edge: spec_fn(usize, usize) -> bool,
    sea: Seq<bool>,
    at: usize,
    seen: Seq<bool>,
    queue: Seq<(usize, usize)>,
    head: int,
    x: usize,
    k: nat,
) -> (q: int)
    requires
        ring_search(edge, sea, at, seen, queue, head),
        forall|a: usize, b: usize| a < sea.len() && #[trigger] edge(a, b) ==> b < sea.len(),
        head < queue.len() ==> k <= queue[head].1,
        k <= SNAP_TO_SEA_MAX_RING,
        x < sea.len(),
        walk::within_steps(edge, at, x, k),
    ensures
        0 <= q < queue.len(),
        queue[q].0 == x,
        queue[q].1 <= k,
    decreases k,
{
    if x == at {
        0
    } else {
        let via = walk::lemma_last_step(edge, at, x, k);
        assert(via < sea.len()) by {
            lemma_cells_in_range(edge, at, via, (k - 1) as nat, sea.len() as int);
        }
        let p = lemma_rings_complete(edge, sea, at, seen, queue, head, via, (k - 1) as nat);
        assert(p < head) by {
            if p >= head {
                assert(queue[head].1 <= queue[p].1);
            }
        }
        assert(edge(queue[p].0, x));
        choose|r: int|
            0 <= r < queue.len() && (#[trigger] queue[r]).0 == x && queue[r].1 <= queue[p].1 + 1
    }
}

/// A walk that starts among `n` cells stays there.
proof fn lemma_cells_in_range(
    edge: spec_fn(usize, usize) -> bool,
    from: usize,
    to: usize,
    k: nat,
    n: int,
)
    requires
        from < n,
        forall|a: usize, b: usize| a < n && #[trigger] edge(a, b) ==> b < n,
        walk::within_steps(edge, from, to, k),
    ensures
        to < n,
    decreases k,
{
    if to != from {
        let via = walk::lemma_last_step(edge, from, to, k);
        lemma_cells_in_range(edge, from, via, (k - 1) as nat, n);
    }
}

/// Finds a sea cell as few steps from cell `at` as any, or reports that there
/// is none within the ring limit. A step leads to a neighbour, over land or sea.
pub(crate) fn snap_to_sea<N: Fn(usize) -> Vec<usize>>(
    sea: &[bool],
    at: usize,
    neighbours: N,
    Ghost(nb): Ghost<spec_fn(usize) -> Seq<usize>>,
) -> (found: Option<usize>)
    requires
        at < sea@.len(),
        lists(neighbours, nb, sea@.len() as int),
    ensures
        found matches Some(c) ==> snapped(nb, sea@, at, c),
        found is None ==> landlocked(steps(nb), sea@, at),
{
    let n: usize = sea.len();
    let ghost edge = steps(nb);
    let mut seen: Vec<bool> = vec![false; n];
    let mut queue: Vec<(usize, usize)> = Vec::new();
    proof {
        walk::lemma_count_set_none(seen@);
        walk::lemma_count_set_update(seen@, at as int);
    }
    seen.set(at, true);
    queue.push((at, 0));
    proof {
        assert(walk::walk_between(edge, seq![at], at, at));
        assert(walk::within_steps(edge, at, at, 0));
        assert forall|a: usize, b: usize| a < n && #[trigger] edge(a, b) implies b < n by {
            let k = choose|k: int| 0 <= k < nb(a).len() && #[trigger] nb(a)[k] == b;
            assert(nb(a)[k] < n);
        }
        assert forall|x: usize| x < n && #[trigger] seen@[x as int] implies exists|q: int|
            0 <= q < queue@.len() && (#[trigger] queue@[q]).0 == x by {
            assert(queue@[0].0 == x);
        }
    }
    let mut head: usize = 0;
    let ghost mut r: int = 0;
    proof {
        assert(cells_of(queue@) =~= seq![at]);
        assert(by_rings(nb, at, 0) == seq![at]);
    }
    while head < queue.len()
        invariant
            ring_by_ring(nb, at, queue@, head as int, r),
            n == sea@.len(),
            at < n,
            edge == steps(nb),
            lists(neighbours, nb, n as int),
            forall|a: usize, b: usize| a < n && #[trigger] edge(a, b) ==> b < n,
            ring_search(edge, sea@, at, seen@, queue@, head as int),
            walk::count_set(seen@) == queue@.len(),
            queue@.len() <= n,
        decreases n - head,
    {
        let (cell, ring) = queue[head];
        proof {
            r = lemma_next_ring(nb, at, queue@, head as int, r);
        }
        let ghost known = by_rings(nb, at, r);
        if sea[cell] {
            proof {
                lemma_rings_are_prefixes(nb, at, r, SNAP_TO_SEA_MAX_RING as int);
                let order = by_rings(nb, at, SNAP_TO_SEA_MAX_RING as int);
                assert forall|p: int| 0 <= p <= head implies #[trigger] order[p] == queue@[p].0 by {
                    assert(order.take(known.len() as int)[p] == known[p]);
                    lemma_spread_keeps(nb, known, inside(nb, at, r - 1), head as int);
                    assert(cells_of(queue@)[p] == queue@[p].0);
                    assert(cells_of(queue@).take(known.len() as int) =~= known);
                    assert(cells_of(queue@).take(known.len() as int)[p] == known[p]);
                }
                assert(order[head as int] == cell);
                assert(first_sea(nb, sea@, at, cell));
                assert forall|x: usize, j: nat|
                    x < n && j < ring && #[trigger] walk::within_steps(edge, at, x, j) implies !sea@[x as int] by {
                    let q = lemma_rings_complete(
                        edge,
                        sea@,
                        at,
                        seen@,
                        queue@,
                        head as int,
                        x,
                        j,
                    );
                    assert(q < head) by {
                        if q >= head {
                            assert(queue@[head as int].1 <= queue@[q].1);
                        }
                    }
                    assert(!sea@[queue@[q].0 as int]);
                }
                assert(queue@[head as int].1 <= SNAP_TO_SEA_MAX_RING);
                assert(nearest_sea(edge, sea@, at, cell, ring as nat));
            }
            return Some(cell);
        }
        let ghost queue0 = queue@;
        if ring < SNAP_TO_SEA_MAX_RING {
            let list: Vec<usize> = neighbours(cell);
            let mut k: usize = 0;
            assert(list@.take(0) =~= Seq::<usize>::empty());
            while k < list.len()
                invariant
                    n == sea@.len(),
                    at < n,
                    cell < n,
                    ring < SNAP_TO_SEA_MAX_RING,
                    head < queue0.len(),
                    queue0[head as int] == (cell, ring),
                    !sea@[cell as int],
                    edge == steps(nb),
                    lists(neighbours, nb, n as int),
                    list@ == nb(cell),
                    queue0.len() <= queue@.len(),
                    forall|q: int| 0 <= q < queue0.len() ==> queue@[q] == queue0[q],
                    ring_search(edge, sea@, at, seen@, queue@, head as int),
                    walk::count_set(seen@) == queue@.len(),
                    queue@.len() <= n,
                    k <= list@.len(),
                    cells_of(queue@) == joined(cells_of(queue0), list@.take(k as int)),
                    forall|q: int| queue0.len() <= q < queue@.len() ==> (#[trigger] queue@[q]).1 == ring + 1,
                    forall|m: int| 0 <= m < k ==> exists|r: int|
                        0 <= r < queue@.len() && (#[trigger] queue@[r]).0 == #[trigger] list@[m] && queue@[r].1 <= ring + 1,
                decreases list@.len() - k,
            {
                let next: usize = list[k];
                assert(nb(cell)[k as int] < n);
                assert(edge(cell, next)) by {
                    assert(list@.contains(next));
                }
                let ghost queue1 = queue@;
                let ghost seen1 = seen@;
                proof {
                    let longer = list@.take(k + 1);
                    assert(longer.drop_last() =~= list@.take(k as int));
                    assert(longer.last() == next);
                    if seen@[next as int] {
                        let q = choose|q: int| 0 <= q < queue@.len() && (#[trigger] queue@[q]).0 == next;
                        assert(cells_of(queue@)[q] == next);
                    } else if cells_of(queue@).contains(next) {
                        let q = choose|q: int| 0 <= q < queue@.len() && cells_of(queue@)[q] == next;
                        assert(queue@[q].0 == next);
                    }
                }
                if !seen[next] {
                    proof {
                        walk::lemma_count_set_update(seen@, next as int);
                        walk::lemma_one_more_step(edge, at, cell, next, ring as nat);
                    }
                    seen.set(next, true);
                    queue.push((next, ring + 1));
                    proof {
                        assert(cells_of(queue@) =~= cells_of(queue1).push(next));
                        walk::lemma_count_set_bound(seen@);
                        let last = queue1.len() as int;
                        assert(queue@[last] == (next, (ring + 1) as usize));
                        assert(queue@[head as int] == (cell, ring));
                        assert forall|q: int| 0 <= q < last implies #[trigger] queue@[q] == queue1[q] by {}
                        assert forall|x: usize| x < n && #[trigger] seen@[x as int] implies exists|q: int|
                            0 <= q < queue@.len() && (#[trigger] queue@[q]).0 == x by {
                            if x == next {
                                assert(queue@[last].0 == x);
                            } else {
                                assert(seen1[x as int]);
                                let q = choose|q: int|
                                    0 <= q < queue1.len() && (#[trigger] queue1[q]).0 == x;
                                assert(queue@[q].0 == x);
                            }
                        }
                        assert forall|q: int, x: usize|
                            0 <= q < head && (#[trigger] queue@[q]).1 < SNAP_TO_SEA_MAX_RING && x
                                < n && #[trigger] edge(queue@[q].0, x) implies exists|r: int|
                            0 <= r < queue@.len() && (#[trigger] queue@[r]).0 == x && queue@[r].1 <= queue@[q].1 + 1 by {
                            assert(queue@[q] == queue1[q]);
                            assert(edge(queue1[q].0, x));
                            let r = choose|r: int|
                                0 <= r < queue1.len() && (#[trigger] queue1[r]).0 == x && queue1[r].1 <= queue1[q].1 + 1;
                            assert(queue@[r].0 == x);
                        }
                        assert forall|m: int| 0 <= m < k implies exists|r: int|
                            0 <= r < queue@.len() && (#[trigger] queue@[r]).0 == #[trigger] list@[m] && queue@[r].1 <= ring + 1 by {
                            let r = choose|r: int|
                                0 <= r < queue1.len() && (#[trigger] queue1[r]).0 == list@[m] && queue1[r].1 <= ring + 1;
                            assert(queue@[r].0 == list@[m]);
                        }
                    }
                } else {
                    proof {
                        let q = choose|q: int| 0 <= q < queue@.len() && (#[trigger] queue@[q]).0 == next;
                        assert(queue@[q].1 <= queue@[head as int].1 + 1);
                    }
                }
                k += 1;
            }
            proof {
                assert(list@.take(k as int) =~= nb(cell));
                assert forall|x: usize| x < n && #[trigger] edge(cell, x) implies exists|r: int|
                    0 <= r < queue@.len() && (#[trigger] queue@[r]).0 == x && queue@[r].1 <= ring + 1 by {
                    let m = choose|m: int| 0 <= m < list@.len() && list@[m] == x;
                    assert(list@[m] == x);
                }
            }
        }
        proof {
            assert forall|q: int| inside(nb, at, r - 1) <= q < known.len() implies (
            #[trigger] queue@[q]).1 == r by {
                assert(queue@[q] == queue0[q]);
            }
            assert forall|q: int| known.len() <= q < queue@.len() implies (#[trigger] queue@[q]).1 == r + 1 by {
                if q < queue0.len() {
                    assert(queue@[q] == queue0[q]);
                }
            }
            if r < SNAP_TO_SEA_MAX_RING {
                assert(cells_of(queue@) == spread(nb, known, inside(nb, at, r - 1), head + 1));
            }
            assert(queue@[head as int] == (cell, ring));
            assert forall|q: int, x: usize|
                0 <= q < head + 1 && (#[trigger] queue@[q]).1 < SNAP_TO_SEA_MAX_RING && x < n
                    && #[trigger] edge(queue@[q].0, x) implies exists|r: int|
                0 <= r < queue@.len() && (#[trigger] queue@[r]).0 == x && queue@[r].1 <= queue@[q].1 + 1 by {
                if q == head {
                    assert(edge(cell, x));
                }
            }
        }
        head += 1;
    }
    proof {
        assert forall|x: usize|
            x < n && #[trigger] walk::within_steps(
                edge,
                at,
                x,
                SNAP_TO_SEA_MAX_RING as nat,
            ) implies !sea@[x as int] by {
            let q = lemma_rings_complete(
                edge,
                sea@,
                at,
                seen@,
                queue@,
                head as int,
                x,
                SNAP_TO_SEA_MAX_RING as nat,
            );
            assert(!sea@[queue@[q].0 as int]);
        }
    }
    None
}

/// What is joined comes from what was known or what is added.
proof fn lemma_joined_members(known: Seq<usize>, more: Seq<usize>, k: int)
    requires
        0 <= k < joined(known, more).len(),
    ensures
        known.contains(joined(known, more)[k]) || exists|p: int|
            0 <= p < more.len() && #[trigger] more[p] == joined(known, more)[k],
    decreases more.len(),
{
    let all = joined(known, more);
    if more.len() == 0 {
        assert(known.contains(known[k]));
    } else {
        let front = joined(known, more.drop_last());
        if k < front.len() {
            lemma_joined_members(known, more.drop_last(), k);
            assert(all[k] == front[k]);
            if !known.contains(all[k]) {
                let p = choose|p: int|
                    0 <= p < more.drop_last().len() && #[trigger] more.drop_last()[p] == all[k];
                assert(more[p] == all[k]);
            }
        } else {
            assert(more[more.len() - 1] == all[k]);
        }
    }
}

/// Joining the first few cells gives a front part of joining all.
proof fn lemma_joined_prefix(known: Seq<usize>, more: Seq<usize>, i: int)
    requires
        0 <= i <= more.len(),
    ensures
        joined(known, more.take(i)).len() <= joined(known, more).len(),
        joined(known, more).take(joined(known, more.take(i)).len() as int) == joined(
            known,
            more.take(i),
        ),
    decreases more.len(),
{
    let few = joined(known, more.take(i));
    if i == more.len() {
        assert(more.take(i) =~= more);
        assert(few.take(few.len() as int) =~= few);
    } else {
        lemma_joined_prefix(known, more.drop_last(), i);
        assert(more.drop_last().take(i) =~= more.take(i));
        let front = joined(known, more.drop_last());
        assert(joined(known, more).take(few.len() as int) =~= front.take(few.len() as int));
    }
}

/// A cell that is not sea itself but has sea beside it snaps to the first sea cell of those
/// that it leads to.
pub proof fn law_snaps_to_the_first_beside(
    nb: spec_fn(usize) -> Seq<usize>,
    sea: Seq<bool>,
    at: usize,
    c: usize,
    m: int,
)
    requires
        snapped(nb, sea, at, c),
        !sea[at as int],
        0 <= m < nb(at).len(),
        sea[nb(at)[m] as int],
        forall|p: int| 0 <= p < m ==> !sea[(#[trigger] nb(at)[p]) as int],
    ensures
        c == nb(at)[m],
{
    let more = nb(at);
    let known = seq![at];
    let few = by_rings(nb, at, 1);
    let order = by_rings(nb, at, SNAP_TO_SEA_MAX_RING as int);
    reveal_with_fuel(spread, 3);
    assert(by_rings(nb, at, 0) == known);
    assert(inside(nb, at, -1) == 0);
    assert(few == joined(known, more));
    lemma_rings_are_prefixes(nb, at, 1, SNAP_TO_SEA_MAX_RING as int);
    let front = joined(known, more.take(m));
    let upto = joined(known, more.take(m + 1));
    assert(more.take(m + 1).drop_last() =~= more.take(m));
    assert(more.take(m + 1).last() == more[m]);
    assert forall|k: int| 0 <= k < front.len() implies !sea[(#[trigger] front[k]) as int] by {
        lemma_joined_members(known, more.take(m), k);
        if known.contains(front[k]) {
            assert(front[k] == at);
        } else {
            let p = choose|p: int|
                0 <= p < more.take(m).len() && #[trigger] more.take(m)[p] == front[k];
            assert(more[p] == front[k]);
        }
    }
    if front.contains(more[m]) {
        let k = choose|k: int| 0 <= k < front.len() && front[k] == more[m];
        assert(!sea[front[k] as int]);
    }
    assert(upto == front.push(more[m]));
    lemma_joined_prefix(known, more, m + 1);
    let q = front.len() as int;
    assert(order.take(few.len() as int)[q] == few[q]);
    assert(few.take(upto.len() as int)[q] == upto[q]);
    assert(order[q] == more[m]);
    assert forall|p: int| 0 <= p < q implies !sea[(#[trigger] order[p]) as int] by {
        assert(order.take(few.len() as int)[p] == few[p]);
        assert(few.take(upto.len() as int)[p] == upto[p]);
        assert(upto[p] == front[p]);
    }
    let r = choose|r: int|
        0 <= r < order.len() && #[trigger] order[r] == c && sea[c as int] && forall|p: int|
            0 <= p < r ==> !sea[(#[trigger] order[p]) as int];
    if q < r {
        assert(!sea[order[q] as int]);
    } else if r < q {
        assert(!sea[order[r] as int]);
    }
}

} // verus!
