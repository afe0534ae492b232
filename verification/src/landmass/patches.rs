//! Merging of the rectangles that fine patches are built over.
use vstd::prelude::*;
use crate::bounds::LonLatBbox;

verus! {

/// Whether two rectangles share a point; touching edges count. Rectangles that
/// cross the antimeridian are not told apart here.
pub open spec fn overlap(a: LonLatBbox, b: LonLatBbox) -> bool {
    !(a.lat_max.below(b.lat_min) || b.lat_max.below(a.lat_min) || a.lon_max.below(b.lon_min)
        || b.lon_max.below(a.lon_min))
}

/// The smallest rectangle over two.
pub open spec fn hull(a: LonLatBbox, b: LonLatBbox) -> LonLatBbox {
    LonLatBbox {
        lon_min: a.lon_min.lesser_of(b.lon_min),
        lon_max: a.lon_max.greater_of(b.lon_max),
        lat_min: a.lat_min.lesser_of(b.lat_min),
        lat_max: a.lat_max.greater_of(b.lat_max),
    }
}

/// Whether the edges are numbers in order.
pub open spec fn proper(b: LonLatBbox) -> bool {
    b.lon_min.at_most(b.lon_max) && b.lat_min.at_most(b.lat_max)
}

/// Whether `outer` covers `inner`.
pub open spec fn covers(outer: LonLatBbox, inner: LonLatBbox) -> bool {
    outer.lon_min.at_most(inner.lon_min) && inner.lon_max.at_most(outer.lon_max)
        && outer.lat_min.at_most(inner.lat_min) && inner.lat_max.at_most(outer.lat_max)
}

/// Whether some rectangle of `outer` covers `inner`.
pub open spec fn covered(outer: Seq<LonLatBbox>, inner: LonLatBbox) -> bool {
    exists|k: int| 0 <= k < outer.len() && covers(#[trigger] outer[k], inner)
}

/// Whether all rectangles are proper.
pub open spec fn all_proper(s: Seq<LonLatBbox>) -> bool {
    forall|k: int| 0 <= k < s.len() ==> proper(#[trigger] s[k])
}

/// Whether no two rectangles share a point.
pub open spec fn apart(s: Seq<LonLatBbox>) -> bool {
    forall|i: int, j: int| 0 <= i < j < s.len() ==> !overlap(#[trigger] s[i], #[trigger] s[j])
}

/// Whether every rectangle of `inner` is covered by one of `outer`.
pub open spec fn all_covered(outer: Seq<LonLatBbox>, inner: Seq<LonLatBbox>) -> bool {
    forall|k: int| 0 <= k < inner.len() ==> covered(outer, #[trigger] inner[k])
}

/// Whether the rectangles at `i` and `j` share a point, and no two before them do. Those at
/// a lower first place come before, and of these those at a lower second place.
pub open spec fn first_to_share(s: Seq<LonLatBbox>, i: int, j: int) -> bool {
    &&& 0 <= i < j < s.len()
    &&& overlap(s[i], s[j])
    &&& forall|a: int, b: int|
        0 <= a < b < s.len() && (a < i || (a == i && b < j)) ==> !overlap(
            #[trigger] s[a],
            #[trigger] s[b],
        )
}

/// Rectangles with the one over those at `i` and `j` in the place of the first. The last takes
/// the place of the second.
pub open spec fn fold(s: Seq<LonLatBbox>, i: int, j: int) -> Seq<LonLatBbox> {
    s.update(j, s.last()).drop_last().update(i, hull(s[i], s[j]))
}

/// Rectangles folded together, the first two that share a point at a time, until none do.
pub open spec fn folded(s: Seq<LonLatBbox>) -> Seq<LonLatBbox>
    decreases s.len(),
{
    let (i, j) = choose|i: int, j: int| first_to_share(s, i, j);
    if first_to_share(s, i, j) {
        folded(fold(s, i, j))
    } else {
        s
    }
}

/// Whether two rectangles share a point; touching edges count.
pub fn bboxes_overlap(a: LonLatBbox, b: LonLatBbox) -> (r: bool)
    ensures
        r == overlap(a, b),
{
    !(a.lat_max.lt(b.lat_min) || b.lat_max.lt(a.lat_min) || a.lon_max.lt(b.lon_min) || b.lon_max.lt(
        a.lon_min,
    ))
}

/// The smallest rectangle over two.
pub fn bbox_union(a: LonLatBbox, b: LonLatBbox) -> (u: LonLatBbox)
    ensures
        u == hull(a, b),
{
    LonLatBbox::new(
        a.lon_min.min(b.lon_min),
        a.lon_max.max(b.lon_max),
        a.lat_min.min(b.lat_min),
        a.lat_max.max(b.lat_max),
    )
}

/// The first two rectangles that share a point, if any do.
fn first_overlap(boxes: &Vec<LonLatBbox>) -> (found: Option<(usize, usize)>)
    ensures
        found matches Some((i, j)) ==> first_to_share(boxes@, i as int, j as int),
        found is None ==> apart(boxes@),
{
    let n: usize = boxes.len();
    let mut i: usize = 0;
    while i < n
        invariant
            n == boxes@.len(),
            i <= n,
            forall|a: int, b: int|
                0 <= a < i && a < b < n ==> !overlap(#[trigger] boxes@[a], #[trigger] boxes@[b]),
        decreases n - i,
    {
        let mut j: usize = i + 1;
        while j < n
            invariant
                n == boxes@.len(),
                i < j <= n,
                forall|a: int, b: int|
                    0 <= a < i && a < b < n ==> !overlap(#[trigger] boxes@[a], #[trigger] boxes@[b]),
                forall|b: int| i < b < j ==> !overlap(boxes@[i as int], #[trigger] boxes@[b]),
            decreases n - j,
        {
            if bboxes_overlap(boxes[i], boxes[j]) {
                return Some((i, j));
            }
            j += 1;
        }
        i += 1;
    }
    None
}

/// Proper rectangles that share a point lie in one rectangle of a family that is
/// apart, and so does the rectangle over both.
proof fn lemma_hull_stays_covered(d: Seq<LonLatBbox>, a: LonLatBbox, b: LonLatBbox)
    requires
        all_proper(d),
        apart(d),
        proper(a),
        proper(b),
        overlap(a, b),
        covered(d, a),
        covered(d, b),
    ensures
        covered(d, hull(a, b)),
{
    let i = choose|k: int| 0 <= k < d.len() && covers(#[trigger] d[k], a);
    let j = choose|k: int| 0 <= k < d.len() && covers(#[trigger] d[k], b);
    assert(overlap(d[i], d[j]));
    assert(overlap(d[j], d[i]));
    assert(i == j);
    assert(covers(d[i], hull(a, b)));
}

/// Folds overlapping rectangles together, the first two at a time, until none overlap.
///
/// Of proper rectangles the result covers each, and it is as fine as can be:
/// any family of proper rectangles that are apart and cover the given ones
/// covers the result.
pub fn merge_overlapping_bboxes(boxes: Vec<LonLatBbox>) -> (merged: Vec<LonLatBbox>)
    ensures
        merged@ == folded(boxes@),
        apart(merged@),
        merged@.len() <= boxes@.len(),
        merged@.len() == 0 ==> boxes@.len() == 0,
        apart(boxes@) ==> merged@ == boxes@,
        all_proper(boxes@) ==> all_proper(merged@) && all_covered(merged@, boxes@),
        all_proper(boxes@) ==> forall|d: Seq<LonLatBbox>|
            all_proper(d) && apart(d) && #[trigger] all_covered(d, boxes@) ==> all_covered(
                d,
                merged@,
            ),
{
    let ghost given = boxes@;
    let mut boxes: Vec<LonLatBbox> = boxes;
    proof {
        if all_proper(given) {
            assert forall|k: int| 0 <= k < given.len() implies covered(boxes@, #[trigger] given[k]) by {
                assert(covers(boxes@[k], given[k]));
            }
        }
    }
    let mut next: Option<(usize, usize)> = first_overlap(&boxes);
    while next.is_some()
        invariant
            next matches Some((i, j)) ==> first_to_share(boxes@, i as int, j as int),
            next is None ==> apart(boxes@),
            folded(boxes@) == folded(given),
            boxes@.len() <= given.len(),
            boxes@.len() == 0 ==> given.len() == 0,
            apart(given) ==> boxes@ == given,
            all_proper(given) ==> all_proper(boxes@) && all_covered(boxes@, given),
            all_proper(given) ==> forall|d: Seq<LonLatBbox>|
                all_proper(d) && apart(d) && #[trigger] all_covered(d, given) ==> all_covered(
                    d,
                    boxes@,
                ),
        decreases boxes@.len(),
    {
        let ghost held = boxes@;
        if let Some((i, j)) = next {
            let union: LonLatBbox = bbox_union(boxes[i], boxes[j]);
            boxes.swap_remove(j);
            boxes.set(i, union);
            proof {
                assert(!apart(given)) by {
                    if apart(given) {
                        assert(!overlap(given[i as int], given[j as int]));
                    }
                }
                assert(boxes@ =~= fold(held, i as int, j as int));
                assert(folded(held) == folded(boxes@)) by {
                    let (a, b) = choose|a: int, b: int| first_to_share(held, a, b);
                    assert(first_to_share(held, a, b));
                    assert(overlap(held[a], held[b]) && overlap(held[i as int], held[j as int]));
                    assert(a == i && b == j);
                }
                let last = held.len() - 1;
                assert(boxes@.len() == last);
                // Where each rectangle has gone.
                assert forall|k: int| 0 <= k < last implies #[trigger] boxes@[k] == (if k == i {
                    union
                } else if k == j {
                    held[last]
                } else {
                    held[k]
                }) by {}
                if all_proper(given) {
                    assert(proper(held[i as int]) && proper(held[j as int]));
                    assert(covers(union, held[i as int]) && covers(union, held[j as int]));
                    assert forall|k: int| 0 <= k < held.len() implies covered(boxes@, #[trigger] held[k]) by {
                        if k == i || k == j {
                            assert(covers(boxes@[i as int], held[k]));
                        } else if k == last {
                            assert(proper(held[last]));
                            assert(covers(boxes@[j as int], held[k]));
                        } else {
                            assert(proper(held[k]));
                            assert(covers(boxes@[k], held[k]));
                        }
                    }
                    assert forall|k: int| 0 <= k < given.len() implies covered(boxes@, #[trigger] given[k]) by {
                        assert(covered(held, given[k]));
                        let m = choose|m: int| 0 <= m < held.len() && covers(#[trigger] held[m], given[k]);
                        assert(covered(boxes@, held[m]));
                        let r = choose|r: int| 0 <= r < boxes@.len() && covers(#[trigger] boxes@[r], held[m]);
                        assert(covers(boxes@[r], given[k]));
                    }
                    assert forall|d: Seq<LonLatBbox>|
                        all_proper(d) && apart(d) && #[trigger] all_covered(d, given) implies all_covered(
                        d,
                        boxes@,
                    ) by {
                        assert(all_covered(d, held));
                        assert(covered(d, held[i as int]) && covered(d, held[j as int]));
                        lemma_hull_stays_covered(d, held[i as int], held[j as int]);
                        assert forall|k: int| 0 <= k < boxes@.len() implies covered(d, #[trigger] boxes@[k]) by {
                            if k != i {
                                if k == j {
                                    assert(covered(d, held[last]));
                                } else {
                                    assert(covered(d, held[k]));
                                }
                            }
                        }
                    }
                }
            }
        }
        next = first_overlap(&boxes);
    }
    boxes
}

} // verus!
