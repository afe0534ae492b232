//! The distinct values along an axis of scattered points.
use crate::number::Real32;
use std::collections::HashSet;
use vstd::prelude::*;

verus! {

broadcast use vstd::std_specs::hash::group_hash_axioms;

/// Whether each number is below those after it.
pub open spec fn rising(a: Seq<Real32>) -> bool {
    forall|i: int, j: int| 0 <= i < j < a.len() ==> (#[trigger] a[i]).below(#[trigger] a[j])
}

/// Whether no number is NaN.
pub open spec fn all_numbers(s: Seq<Real32>) -> bool {
    forall|k: int| 0 <= k < s.len() ==> !(#[trigger] s[k]).nan()
}

/// Whether `x` stands in `s` and none before its first place equals it as a number.
pub open spec fn leads(s: Seq<Real32>, x: Real32) -> bool {
    exists|j: int| first_at(s, x, j)
}

/// Whether `x` stands in `s` at place `j`, and no number before `j` equals it.
pub open spec fn first_at(s: Seq<Real32>, x: Real32, j: int) -> bool {
    &&& 0 <= j < s.len()
    &&& s[j] == x
    &&& forall|i: int| 0 <= i < j ==> !(#[trigger] s[i]).equals(x)
}

/// Whether a number of `a` equals `x`.
pub open spec fn on_axis(a: Seq<Real32>, x: Real32) -> bool {
    exists|k: int| 0 <= k < a.len() && (#[trigger] a[k]).equals(x)
}

/// Whether `a` lists the distinct values of `s` in rising order, each as it
/// first occurs.
pub open spec fn is_axis(a: Seq<Real32>, s: Seq<Real32>) -> bool {
    &&& rising(a)
    &&& forall|k: int| 0 <= k < a.len() ==> leads(s, #[trigger] a[k])
    &&& forall|j: int| 0 <= j < s.len() ==> on_axis(a, #[trigger] s[j])
}

/// The distinct values of `s` in rising order, each as it first occurs.
pub open spec fn axis_of(s: Seq<Real32>) -> Seq<Real32> {
    choose|a: Seq<Real32>| is_axis(a, s)
}

/// Two axes of the same values agree from the end on.
proof fn lemma_axes_agree(a: Seq<Real32>, b: Seq<Real32>)
    requires
        rising(a),
        rising(b),
        forall|k: int| 0 <= k < a.len() ==> b.contains(#[trigger] a[k]),
        forall|k: int| 0 <= k < b.len() ==> a.contains(#[trigger] b[k]),
    ensures
        a == b,
    decreases a.len(),
{
    if a.len() == 0 {
        if b.len() > 0 {
            assert(a.contains(b[0]));
        }
        assert(a =~= b);
    } else {
        assert(b.contains(a[0]));
        let m = choose|m: int| 0 <= m < b.len() && b[m] == a[a.len() - 1];
        assert(b.contains(a[a.len() - 1]));
        assert(a.contains(b[b.len() - 1]));
        let n = choose|n: int| 0 <= n < a.len() && a[n] == b[b.len() - 1];
        if m < b.len() - 1 {
            assert(b[m].below(b[b.len() - 1]));
            if n < a.len() - 1 {
                assert(a[n].below(a[a.len() - 1]));
            }
        }
        assert(a.last() == b.last());
        let a0 = a.drop_last();
        let b0 = b.drop_last();
        assert forall|k: int| 0 <= k < a0.len() implies b0.contains(#[trigger] a0[k]) by {
            assert(b.contains(a[k]));
            let p = choose|p: int| 0 <= p < b.len() && b[p] == a[k];
            assert(a[k].below(a[a.len() - 1]));
            assert(p < b.len() - 1);
            assert(b0[p] == a0[k]);
        }
        assert forall|k: int| 0 <= k < b0.len() implies a0.contains(#[trigger] b0[k]) by {
            assert(a.contains(b[k]));
            let p = choose|p: int| 0 <= p < a.len() && a[p] == b[k];
            assert(b[k].below(b[b.len() - 1]));
            assert(p < a.len() - 1);
            assert(a0[p] == b0[k]);
        }
        lemma_axes_agree(a0, b0);
        assert(a =~= a0.push(a.last()));
        assert(b =~= b0.push(b.last()));
    }
}

/// An axis holds what another axis of the same values holds.
proof fn lemma_axis_within(a: Seq<Real32>, b: Seq<Real32>, s: Seq<Real32>)
    requires
        is_axis(a, s),
        is_axis(b, s),
    ensures
        forall|k: int| 0 <= k < a.len() ==> b.contains(#[trigger] a[k]),
{
    assert forall|k: int| 0 <= k < a.len() implies b.contains(#[trigger] a[k]) by {
        assert(leads(s, a[k]));
        let j = choose|j: int| first_at(s, a[k], j);
        assert(on_axis(b, s[j]));
        let m = choose|m: int| 0 <= m < b.len() && (#[trigger] b[m]).equals(s[j]);
        assert(leads(s, b[m]));
        let i = choose|i: int| first_at(s, b[m], i);
        if i < j {
            assert(s[i].equals(a[k]));
        } else if j < i {
            assert(s[j].equals(b[m]));
        }
        assert(b[m] == a[k]);
    }
}

/// There is only one axis of given values.
pub proof fn law_axis_is_unique(a: Seq<Real32>, s: Seq<Real32>)
    requires
        is_axis(a, s),
    ensures
        axis_of(s) == a,
{
    let b = axis_of(s);
    lemma_axis_within(a, b, s);
    lemma_axis_within(b, a, s);
    lemma_axes_agree(a, b);
}

/// Whether numbers that are equal have the same pattern: not both zeros stand in `s`.
pub open spec fn single(s: Seq<Real32>) -> bool {
    forall|i: int, j: int|
        0 <= i < s.len() && 0 <= j < s.len() && (#[trigger] s[i]).equals(#[trigger] s[j]) ==> s[i]
            == s[j]
}

/// The first place of a number.
proof fn lemma_leads(s: Seq<Real32>, x: Real32, j: int)
    requires
        single(s),
        0 <= j < s.len(),
        s[j] == x,
    ensures
        leads(s, x),
    decreases j,
{
    if exists|i: int| 0 <= i < j && (#[trigger] s[i]).equals(x) {
        let i = choose|i: int| 0 <= i < j && (#[trigger] s[i]).equals(x);
        assert(s[i] == s[j]);
        lemma_leads(s, x, i);
    } else {
        assert(first_at(s, x, j));
    }
}

/// How many numbers of a rising sequence are below `x`, from place `p` on.
proof fn lemma_place(a: Seq<Real32>, x: Real32, p: int) -> (q: int)
    requires
        rising(a),
        0 <= p <= a.len(),
        forall|k: int| 0 <= k < p ==> (#[trigger] a[k]).below(x),
    ensures
        0 <= q <= a.len(),
        forall|k: int| 0 <= k < q ==> (#[trigger] a[k]).below(x),
        forall|k: int| q <= k < a.len() ==> !(#[trigger] a[k]).below(x),
    decreases a.len() - p,
{
    if p < a.len() && a[p].below(x) {
        lemma_place(a, x, p + 1)
    } else {
        assert forall|k: int| p <= k < a.len() implies !(#[trigger] a[k]).below(x) by {
            if k > p {
                assert(a[p].below(a[k]));
            }
        }
        p
    }
}

/// Numbers have an axis.
proof fn lemma_has_axis(s: Seq<Real32>) -> (a: Seq<Real32>)
    requires
        all_numbers(s),
    ensures
        is_axis(a, s),
        all_numbers(a),
    decreases s.len(),
{
    if s.len() == 0 {
        Seq::empty()
    } else {
        let seen = s.drop_last();
        let x = s.last();
        assert forall|k: int| 0 <= k < seen.len() implies !(#[trigger] seen[k]).nan() by {
            assert(!s[k].nan());
        }
        let before = lemma_has_axis(seen);
        let p = lemma_place(before, x, 0);
        assert(s =~= seen.push(x));
        if p < before.len() && before[p].equals(x) {
            assert forall|i: int| 0 <= i < before.len() implies leads(s, #[trigger] before[i]) by {
                assert(leads(seen, before[i]));
                let j = choose|j: int| first_at(seen, before[i], j);
                assert forall|m: int| 0 <= m < j implies !(#[trigger] s[m]).equals(before[i]) by {
                    assert(s[m] == seen[m]);
                }
                assert(first_at(s, before[i], j));
            }
            assert forall|j: int| 0 <= j < s.len() implies on_axis(before, #[trigger] s[j]) by {
                if j < seen.len() {
                    assert(on_axis(before, seen[j]));
                }
            }
            before
        } else {
            lemma_value_added(before, seen, x, p);
            let a = before.insert(p, x);
            assert forall|i: int| 0 <= i < a.len() implies !(#[trigger] a[i]).nan() by {
                if i < p {
                    assert(a[i] == before[i]);
                } else if i > p {
                    assert(a[i] == before[i - 1]);
                }
            }
            a
        }
    }
}

/// The axis of numbers is one.
pub proof fn lemma_axis(s: Seq<Real32>)
    requires
        all_numbers(s),
    ensures
        is_axis(axis_of(s), s),
        all_numbers(axis_of(s)),
{
    let a = lemma_has_axis(s);
    law_axis_is_unique(a, s);
}

/// Values that stand in another order, or more often, have the same axis.
pub proof fn law_axis_ignores_order(s: Seq<Real32>, t: Seq<Real32>)
    requires
        all_numbers(s),
        single(s),
        forall|x: Real32| s.contains(x) <==> t.contains(x),
    ensures
        axis_of(s) == axis_of(t),
{
    let a = lemma_has_axis(s);
    law_axis_is_unique(a, s);
    assert(single(t)) by {
        assert forall|i: int, j: int|
            0 <= i < t.len() && 0 <= j < t.len() && (#[trigger] t[i]).equals(#[trigger] t[j]) implies t[i]
            == t[j] by {
            assert(t.contains(t[i]) && t.contains(t[j]));
            let m = choose|m: int| 0 <= m < s.len() && s[m] == t[i];
            let n = choose|n: int| 0 <= n < s.len() && s[n] == t[j];
            assert(s[m].equals(s[n]));
        }
    }
    assert forall|k: int| 0 <= k < a.len() implies leads(t, #[trigger] a[k]) by {
        assert(leads(s, a[k]));
        let j = choose|j: int| first_at(s, a[k], j);
        assert(s.contains(s[j]));
        assert(t.contains(a[k]));
        let m = choose|m: int| 0 <= m < t.len() && t[m] == a[k];
        lemma_leads(t, a[k], m);
    }
    assert forall|j: int| 0 <= j < t.len() implies on_axis(a, #[trigger] t[j]) by {
        assert(t.contains(t[j]));
        let m = choose|m: int| 0 <= m < s.len() && s[m] == t[j];
        assert(on_axis(a, s[m]));
    }
    law_axis_is_unique(a, t);
}

/// How many numbers of a rising sequence are below `x`.
pub fn place_for(a: &Vec<Real32>, x: Real32) -> (p: usize)
    requires
        rising(a@),
        all_numbers(a@),
        !x.nan(),
    ensures
        p <= a@.len(),
        forall|k: int| 0 <= k < p ==> (#[trigger] a@[k]).below(x),
        forall|k: int| p <= k < a@.len() ==> !(#[trigger] a@[k]).below(x),
{
    let mut lo: usize = 0;
    let mut hi: usize = a.len();
    while lo < hi
        invariant
            lo <= hi <= a@.len(),
            rising(a@),
            all_numbers(a@),
            !x.nan(),
            forall|k: int| 0 <= k < lo ==> (#[trigger] a@[k]).below(x),
            forall|k: int| hi <= k < a@.len() ==> !(#[trigger] a@[k]).below(x),
        decreases hi - lo,
    {
        let mid: usize = lo + (hi - lo) / 2;
        if a[mid].lt(x) {
            assert forall|k: int| 0 <= k < mid + 1 implies (#[trigger] a@[k]).below(x) by {
                if k < mid {
                    assert(a@[k].below(a@[mid as int]));
                }
            }
            lo = mid + 1;
        } else {
            assert forall|k: int| mid <= k < a@.len() implies !(#[trigger] a@[k]).below(x) by {
                if k > mid {
                    assert(a@[mid as int].below(a@[k]));
                }
            }
            hi = mid;
        }
    }
    lo
}

/// The distinct values of `values` in rising order, each as it first occurs.
pub fn distinct(values: &Vec<Real32>) -> (a: Vec<Real32>)
    requires
        all_numbers(values@),
    ensures
        is_axis(a@, values@),
        a@ == axis_of(values@),
{
    let mut a: Vec<Real32> = Vec::new();
    let mut k: usize = 0;
    while k < values.len()
        invariant
            k <= values@.len(),
            all_numbers(values@),
            is_axis(a@, values@.take(k as int)),
            all_numbers(a@),
        decreases values@.len() - k,
    {
        let x: Real32 = values[k];
        let p: usize = place_for(&a, x);
        let ghost before = a@;
        let ghost seen = values@.take(k as int);
        let ghost more = values@.take(k + 1);
        proof {
            assert(more =~= seen.push(x));
            assert forall|i: int| 0 <= i < before.len() implies leads(more, #[trigger] before[i]) by {
                assert(leads(seen, before[i]));
                let j = choose|j: int| first_at(seen, before[i], j);
                assert(first_at(more, before[i], j));
            }
        }
        if p < a.len() && a[p].eq_num(x) {
            proof {
                assert forall|j: int| 0 <= j < more.len() implies on_axis(a@, #[trigger] more[j]) by {
                    if j < k {
                        assert(on_axis(a@, seen[j]));
                    } else {
                        assert(a@[p as int].equals(x));
                    }
                }
            }
        } else {
            a.insert(p, x);
            proof {
                lemma_value_added(before, seen, x, p as int);
                assert(a@ == before.insert(p as int, x));
                assert(is_axis(a@, more));
                assert forall|i: int| 0 <= i < a@.len() implies !(#[trigger] a@[i]).nan() by {
                    if i < p {
                        assert(a@[i] == before[i]);
                    } else if i > p {
                        assert(a@[i] == before[i - 1]);
                    }
                }
            }
        }
        k += 1;
    }
    proof {
        assert(values@.take(k as int) =~= values@);
        law_axis_is_unique(a@, values@);
    }
    a
}

/// An axis with a new value put in its place is the axis of the values with the
/// new one behind them.
proof fn lemma_value_added(a: Seq<Real32>, s: Seq<Real32>, x: Real32, p: int)
    requires
        is_axis(a, s),
        all_numbers(a),
        !x.nan(),
        0 <= p <= a.len(),
        forall|k: int| 0 <= k < p ==> (#[trigger] a[k]).below(x),
        forall|k: int| p <= k < a.len() ==> !(#[trigger] a[k]).below(x),
        p < a.len() ==> !a[p].equals(x),
    ensures
        is_axis(a.insert(p, x), s.push(x)),
{
    let b = a.insert(p, x);
    let t = s.push(x);
    assert forall|k: int| p <= k < a.len() implies x.below(#[trigger] a[k]) by {
        if k > p {
            assert(a[p].below(a[k]));
        }
    }
    assert forall|i: int, j: int| 0 <= i < j < b.len() implies (#[trigger] b[i]).below(#[trigger] b[j]) by {
        let i0 = if i < p {
            i
        } else {
            i - 1
        };
        let j0 = if j < p {
            j
        } else {
            j - 1
        };
        if i == p {
            assert(b[j] == a[j0]);
        } else if j == p {
            assert(b[i] == a[i0]);
        } else {
            assert(b[i] == a[i0]);
            assert(b[j] == a[j0]);
            assert(a[i0].below(a[j0]));
        }
    }
    assert forall|k: int| 0 <= k < b.len() implies leads(t, #[trigger] b[k]) by {
        if k == p {
            assert forall|i: int| 0 <= i < s.len() implies !(#[trigger] t[i]).equals(x) by {
                assert(on_axis(a, s[i]));
                let m = choose|m: int| 0 <= m < a.len() && (#[trigger] a[m]).equals(s[i]);
                if m < p {
                    assert(a[m].below(x));
                } else {
                    assert(x.below(a[m]));
                }
            }
            assert(first_at(t, x, s.len() as int));
        } else {
            let k0 = if k < p {
                k
            } else {
                k - 1
            };
            assert(b[k] == a[k0]);
            assert(leads(s, a[k0]));
            let j = choose|j: int| first_at(s, a[k0], j);
            assert forall|i: int| 0 <= i < j implies !(#[trigger] t[i]).equals(b[k]) by {
                assert(t[i] == s[i]);
            }
            assert(first_at(t, b[k], j));
        }
    }
    assert forall|j: int| 0 <= j < t.len() implies on_axis(b, #[trigger] t[j]) by {
        if j < s.len() {
            assert(on_axis(a, s[j]));
            let m = choose|m: int| 0 <= m < a.len() && (#[trigger] a[m]).equals(s[j]);
            let m1 = if m < p {
                m
            } else {
                m + 1
            };
            assert(b[m1] == a[m]);
        } else {
            assert(b[p].equals(x));
        }
    }
}

/// The patterns of every `stride`-th number, from the first on.
pub open spec fn every(a: Seq<Real32>, stride: int) -> Set<u32> {
    Set::new(|b: u32| exists|k: int| picked(a, stride, k, b))
}

/// Whether place `k` of `a` is one that a stride lands on and holds the pattern `b`.
pub open spec fn picked(a: Seq<Real32>, stride: int, k: int, b: u32) -> bool {
    0 <= k < a.len() && k % stride == 0 && a[k].bits == b
}

/// The patterns of every `stride`-th number, from the first on.
pub fn pick_every(a: &Vec<Real32>, stride: usize) -> (s: HashSet<u32>)
    requires
        stride > 0,
    ensures
        s@ == every(a@, stride as int),
{
    let mut s: HashSet<u32> = HashSet::new();
    let mut k: usize = 0;
    assert(s@ =~= Set::new(|b: u32| exists|i: int| i < 0 && picked(a@, stride as int, i, b)));
    while k < a.len()
        invariant
            stride > 0,
            k <= a@.len(),
            s@ == Set::new(|b: u32| exists|i: int| i < k && picked(a@, stride as int, i, b)),
        decreases a@.len() - k,
    {
        let ghost before = s@;
        if k % stride == 0 {
            s.insert(a[k].bits);
        }
        proof {
            let after = Set::new(|b: u32| exists|i: int| i < k + 1 && picked(a@, stride as int, i, b));
            assert forall|b: u32| s@.contains(b) == after.contains(b) by {
                if s@.contains(b) {
                    if before.contains(b) {
                        let i = choose|i: int| i < k && picked(a@, stride as int, i, b);
                        assert(i < k + 1 && picked(a@, stride as int, i, b));
                    } else {
                        assert(picked(a@, stride as int, k as int, b));
                    }
                }
                if after.contains(b) {
                    let i = choose|i: int| i < k + 1 && picked(a@, stride as int, i, b);
                    if i < k {
                        assert(before.contains(b));
                    } else {
                        assert(s@.contains(b));
                    }
                }
            }
            assert(s@ =~= after);
        }
        k += 1;
    }
    proof {
        assert forall|b: u32| s@.contains(b) == every(a@, stride as int).contains(b) by {
            if s@.contains(b) {
                let i = choose|i: int| i < k && picked(a@, stride as int, i, b);
                assert(picked(a@, stride as int, i, b));
            }
            if every(a@, stride as int).contains(b) {
                let i = choose|i: int| picked(a@, stride as int, i, b);
                assert(i < k && picked(a@, stride as int, i, b));
            }
        }
        assert(s@ =~= every(a@, stride as int));
    }
    s
}

/// An axis holds every number of those it is made of once, from the lowest to the highest, and
/// nothing else.
pub proof fn law_axis_holds_each_number_once(s: Seq<Real32>, x: Real32)
    requires
        all_numbers(s),
        s.contains(x),
    ensures
        ({
            let a = axis_of(s);
            &&& forall|i: int, j: int| 0 <= i < j < a.len() ==> (#[trigger] a[i]).below(#[trigger] a[j])
            &&& forall|k: int| 0 <= k < a.len() ==> s.contains(#[trigger] a[k])
            &&& exists|k: int| 0 <= k < a.len() && (#[trigger] a[k]).equals(x)
        }),
{
    lemma_axis(s);
    let a = axis_of(s);
    assert forall|k: int| 0 <= k < a.len() implies s.contains(#[trigger] a[k]) by {
        assert(leads(s, a[k]));
        let j = choose|j: int| first_at(s, a[k], j);
        assert(s[j] == a[k]);
    }
    let j = choose|j: int| 0 <= j < s.len() && s[j] == x;
    assert(on_axis(a, s[j]));
}

/// Of an axis each `stride`-th number is kept, from the first on, and no other.
pub proof fn law_each_nth_is_kept(a: Seq<Real32>, stride: int, k: int)
    requires
        stride > 0,
        rising(a),
        0 <= k < a.len(),
    ensures
        every(a, stride).contains(a[k].bits) <==> k % stride == 0,
        every(a, 1).contains(a[k].bits),
{
    if k % stride == 0 {
        assert(picked(a, stride, k, a[k].bits));
    }
    if every(a, stride).contains(a[k].bits) {
        let m = choose|m: int| picked(a, stride, m, a[k].bits);
        if m < k {
            assert(a[m].below(a[k]));
        } else if k < m {
            assert(a[k].below(a[m]));
        }
    }
    assert(k % 1 == 0);
    assert(picked(a, 1, k, a[k].bits));
}

/// Each number of an axis is taken as it first occurs.
pub proof fn law_axis_takes_what_comes_first(s: Seq<Real32>, k: int)
    requires
        all_numbers(s),
        0 <= k < axis_of(s).len(),
    ensures
        exists|j: int|
            0 <= j < s.len() && #[trigger] s[j] == axis_of(s)[k] && forall|i: int|
                0 <= i < j ==> !(#[trigger] s[i]).equals(s[j]),
{
    lemma_axis(s);
    let x = axis_of(s)[k];
    assert(leads(s, x));
    let j = choose|j: int| first_at(s, x, j);
    assert(s[j] == x);
}

} // verus!
