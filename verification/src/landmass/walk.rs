//! Walks over a graph of numbered cells.
use vstd::prelude::*;

verus! {

/// Whether step `k` of `p` goes along an edge.
pub open spec fn hop(edge: spec_fn(usize, usize) -> bool, p: Seq<usize>, k: int) -> bool {
    edge(p[k - 1], p[k])
}

/// Whether every step of `p` goes along an edge.
pub open spec fn is_walk(edge: spec_fn(usize, usize) -> bool, p: Seq<usize>) -> bool {
    &&& p.len() >= 1
    &&& forall|k: int| 1 <= k < p.len() ==> #[trigger] hop(edge, p, k)
}

/// Whether `p` is a walk from `from` to `to`.
pub open spec fn walk_between(
    edge: spec_fn(usize, usize) -> bool,
    p: Seq<usize>,
    from: usize,
    to: usize,
) -> bool {
    is_walk(edge, p) && p.first() == from && p.last() == to
}

/// Whether some walk leads from `from` to `to`.
pub open spec fn reachable(edge: spec_fn(usize, usize) -> bool, from: usize, to: usize) -> bool {
    exists|p: Seq<usize>| walk_between(edge, p, from, to)
}

/// Whether `to` can be reached from `from` in at most `k` steps.
pub open spec fn within_steps(
    edge: spec_fn(usize, usize) -> bool,
    from: usize,
    to: usize,
    k: nat,
) -> bool {
    exists|p: Seq<usize>| #[trigger] walk_between(edge, p, from, to) && p.len() <= k + 1
}

/// What it costs to walk along `p`, where `extend` gives the cost of a walk
/// made one step longer.
pub open spec fn walk_cost(extend: spec_fn(u64, usize, usize) -> u64, p: Seq<usize>) -> u64
    decreases p.len(),
{
    if p.len() <= 1 {
        0
    } else {
        extend(walk_cost(extend, p.drop_last()), p[p.len() - 2], p.last())
    }
}

/// How many entries of `s` are set.
pub open spec fn count_set(s: Seq<bool>) -> nat
    decreases s.len(),
{
    if s.len() == 0 {
        0
    } else {
        count_set(s.drop_last()) + if s.last() {
            1nat
        } else {
            0nat
        }
    }
}

/// No more entries are set than there are.
pub proof fn lemma_count_set_bound(s: Seq<bool>)
    ensures
        count_set(s) <= s.len(),
    decreases s.len(),
{
    if s.len() > 0 {
        lemma_count_set_bound(s.drop_last());
    }
}

/// Nothing is set in a sequence of unset entries.
pub proof fn lemma_count_set_none(s: Seq<bool>)
    requires
        forall|k: int| 0 <= k < s.len() ==> !s[k],
    ensures
        count_set(s) == 0,
    decreases s.len(),
{
    if s.len() > 0 {
        lemma_count_set_none(s.drop_last());
    }
}

/// Setting an unset entry adds one to the count.
pub proof fn lemma_count_set_update(s: Seq<bool>, at: int)
    requires
        0 <= at < s.len(),
        !s[at],
    ensures
        count_set(s.update(at, true)) == count_set(s) + 1,
    decreases s.len(),
{
    let t = s.update(at, true);
    if at == s.len() - 1 {
        assert(t.drop_last() =~= s.drop_last());
    } else {
        assert(t.drop_last() =~= s.drop_last().update(at, true));
        lemma_count_set_update(s.drop_last(), at);
    }
}

/// A walk made one step longer along an edge is a walk.
pub proof fn lemma_walk_push(edge: spec_fn(usize, usize) -> bool, p: Seq<usize>, to: usize)
    requires
        is_walk(edge, p),
        edge(p.last(), to),
    ensures
        is_walk(edge, p.push(to)),
{
    let q = p.push(to);
    assert forall|k: int| 1 <= k < q.len() implies #[trigger] hop(edge, q, k) by {
        if k < p.len() {
            assert(hop(edge, p, k));
        }
    }
}

/// The front of a walk is a walk.
pub proof fn lemma_walk_prefix(edge: spec_fn(usize, usize) -> bool, p: Seq<usize>, n: int)
    requires
        is_walk(edge, p),
        1 <= n <= p.len(),
    ensures
        is_walk(edge, p.take(n)),
{
    let q = p.take(n);
    assert forall|k: int| 1 <= k < q.len() implies #[trigger] hop(edge, q, k) by {
        assert(hop(edge, p, k));
    }
}

/// Where a cell is reached in some steps, the cell before it is reached in one fewer.
pub proof fn lemma_last_step(
    edge: spec_fn(usize, usize) -> bool,
    from: usize,
    to: usize,
    k: nat,
) -> (via: usize)
    requires
        within_steps(edge, from, to, k),
        to != from,
    ensures
        k > 0,
        within_steps(edge, from, via, (k - 1) as nat),
        edge(via, to),
{
    let p = choose|p: Seq<usize>| #[trigger]
        walk_between(edge, p, from, to) && p.len() <= k + 1;
    let n = p.len() as int;
    assert(n >= 2);
    lemma_walk_prefix(edge, p, n - 1);
    assert(hop(edge, p, n - 1));
    assert(walk_between(edge, p.take(n - 1), from, p[n - 2]));
    p[n - 2]
}

/// One more step reaches the cells beyond an edge.
pub proof fn lemma_one_more_step(
    edge: spec_fn(usize, usize) -> bool,
    from: usize,
    via: usize,
    to: usize,
    k: nat,
)
    requires
        within_steps(edge, from, via, k),
        edge(via, to),
    ensures
        within_steps(edge, from, to, k + 1),
{
    let p = choose|p: Seq<usize>| #[trigger]
        walk_between(edge, p, from, via) && p.len() <= k + 1;
    lemma_walk_push(edge, p, to);
    assert(walk_between(edge, p.push(to), from, to));
}

} // verus!
