//! Land polygons drawn onto cells, straits opened between them, and the slope of
//! the distance to the coast.
use crate::bounds;
use crate::bounds::{LonLatBbox, MapBounds};
use crate::given;
use crate::landmass::places;
use crate::landmass::grid;
use crate::landmass::grid::{slope_neighbours, wrap_column};
use crate::number::{Real, Real32, INFINITY_64, SIGN_64};
use vstd::prelude::*;

verus! {

/// A polygon: an outline and the outlines of its holes, each as longitudes and
/// latitudes, with the first point not repeated at the end.
#[derive(Clone, Debug)]
pub struct Polygon {
    pub rings: Vec<Vec<(Real, Real)>>,
}

/// Whether two points are the same.
pub open spec fn same_point(a: (Real, Real), b: (Real, Real)) -> bool {
    a.0.equals(b.0) && a.1.equals(b.1)
}

/// An outline without its last point, where that is the first again.
pub open spec fn opened(ring: Seq<(Real, Real)>) -> Seq<(Real, Real)> {
    if ring.len() >= 2 && same_point(ring.first(), ring.last()) {
        ring.drop_last()
    } else {
        ring
    }
}

/// An outline without its last point, where that is the first again.
pub fn open_ring(ring: Vec<(Real, Real)>) -> (out: Vec<(Real, Real)>)
    ensures
        out@ == opened(ring@),
{
    let mut out: Vec<(Real, Real)> = ring;
    let n: usize = out.len();
    if n >= 2 {
        let first: (Real, Real) = out[0];
        let last: (Real, Real) = out[n - 1];
        if first.0.eq_num(last.0) && first.1.eq_num(last.1) {
            out.pop();
            assert(out@ =~= ring@.drop_last());
        }
    }
    out
}

/// All points of outlines.
pub open spec fn points_of(rings: Seq<Vec<(Real, Real)>>) -> Seq<(Real, Real)>
    decreases rings.len(),
{
    if rings.len() == 0 {
        Seq::empty()
    } else {
        points_of(rings.drop_last()) + rings.last()@
    }
}

/// The extent of a polygon.
pub open spec fn extent(p: Polygon) -> LonLatBbox {
    let points = points_of(p.rings@);
    LonLatBbox {
        lon_min: bounds::least_of(points.map_values(|q: (Real, Real)| q.0)),
        lon_max: bounds::greatest_of(points.map_values(|q: (Real, Real)| q.0)),
        lat_min: bounds::least_of(points.map_values(|q: (Real, Real)| q.1)),
        lat_max: bounds::greatest_of(points.map_values(|q: (Real, Real)| q.1)),
    }
}

/// The extent of a polygon.
pub fn polygon_bbox(p: &Polygon) -> (b: LonLatBbox)
    ensures
        b == extent(*p),
{
    let mut points: Vec<(Real, Real)> = Vec::new();
    let mut r: usize = 0;
    assert(p.rings@.take(0) =~= Seq::<Vec<(Real, Real)>>::empty());
    while r < p.rings.len()
        invariant
            r <= p.rings@.len(),
            points@ == points_of(p.rings@.take(r as int)),
        decreases p.rings@.len() - r,
    {
        let ghost before = points@;
        let ring: &Vec<(Real, Real)> = &p.rings[r];
        let mut k: usize = 0;
        assert(before + ring@.take(0) =~= before);
        while k < ring.len()
            invariant
                k <= ring@.len(),
                points@ == before + ring@.take(k as int),
            decreases ring@.len() - k,
        {
            points.push(ring[k]);
            assert(before + ring@.take(k + 1) =~= (before + ring@.take(k as int)).push(
                ring@[k as int],
            ));
            k += 1;
        }
        proof {
            assert(ring@.take(k as int) =~= ring@);
            assert(p.rings@.take(r + 1).drop_last() =~= p.rings@.take(r as int));
        }
        r += 1;
    }
    proof {
        assert(p.rings@.take(r as int) =~= p.rings@);
    }
    match MapBounds::from_positions(points.as_slice()) {
        Some(m) => m.bbox,
        None => {
            proof {
                assert(points@.map_values(|q: (Real, Real)| q.0).len() == 0);
                assert(points@.map_values(|q: (Real, Real)| q.1).len() == 0);
            }
            LonLatBbox {
                lon_min: Real { bits: INFINITY_64 },
                lon_max: Real { bits: INFINITY_64 + SIGN_64 },
                lat_min: Real { bits: INFINITY_64 },
                lat_max: Real { bits: INFINITY_64 + SIGN_64 },
            }
        },
    }
}

/// Whether a ray to the east from a point crosses the side of an outline that begins
/// at point `k`. `meet` tells at which longitude a side crosses a latitude.
pub open spec fn crosses<M: Fn((Real, Real), (Real, Real), Real) -> Real>(
    ring: Seq<(Real, Real)>,
    k: int,
    at: (Real, Real),
    meet: M,
) -> bool {
    let a = ring[k];
    let b = ring[(k + 1) % (ring.len() as int)];
    &&& at.1.below(a.1) != at.1.below(b.1)
    &&& at.0.below(given::gives3(meet, a, b, at.1))
}

/// How many of the first `n` sides the ray crosses.
pub open spec fn crossings<M: Fn((Real, Real), (Real, Real), Real) -> Real>(
    ring: Seq<(Real, Real)>,
    n: int,
    at: (Real, Real),
    meet: M,
) -> nat
    decreases n,
{
    if n <= 0 {
        0
    } else {
        crossings(ring, n - 1, at, meet) + if crosses(ring, n - 1, at, meet) {
            1nat
        } else {
            0nat
        }
    }
}

/// Whether an outline encloses a point: a ray from there crosses it an odd number of
/// times. Two points enclose nothing.
pub open spec fn encloses<M: Fn((Real, Real), (Real, Real), Real) -> Real>(
    ring: Seq<(Real, Real)>,
    at: (Real, Real),
    meet: M,
) -> bool {
    ring.len() >= 3 && crossings(ring, ring.len() as int, at, meet) % 2 == 1
}

/// Whether an outline encloses a point.
pub fn point_in_ring<M: Fn((Real, Real), (Real, Real), Real) -> Real>(
    at: (Real, Real),
    ring: &Vec<(Real, Real)>,
    meet: &M,
) -> (r: bool)
    requires
        given::settled3(*meet),
    ensures
        r == encloses(ring@, at, *meet),
{
    let n: usize = ring.len();
    if n < 3 {
        return false;
    }
    let mut inside: bool = false;
    let mut k: usize = 0;
    while k < n
        invariant
            k <= n,
            n == ring@.len(),
            n >= 3,
            given::settled3(*meet),
            inside == (crossings(ring@, k as int, at, *meet) % 2 == 1),
        decreases n - k,
    {
        let a: (Real, Real) = ring[k];
        let next: usize = if k + 1 < n { k + 1 } else { 0 };
        proof {
            if k + 1 < n {
                vstd::arithmetic::div_mod::lemma_small_mod((k + 1) as nat, n as nat);
            } else {
                vstd::arithmetic::div_mod::lemma_mod_self_0(n as int);
            }
        }
        let b: (Real, Real) = ring[next];
        if at.1.lt(a.1) != at.1.lt(b.1) {
            if at.0.lt(meet(a, b, at.1)) {
                inside = !inside;
            }
        }
        k += 1;
    }
    inside
}

/// How many of the first `n` outlines enclose a point.
pub open spec fn enclosing<M: Fn((Real, Real), (Real, Real), Real) -> Real>(
    rings: Seq<Vec<(Real, Real)>>,
    n: int,
    at: (Real, Real),
    meet: M,
) -> nat
    decreases n,
{
    if n <= 0 {
        0
    } else {
        enclosing(rings, n - 1, at, meet) + if encloses(rings[n - 1]@, at, meet) {
            1nat
        } else {
            0nat
        }
    }
}

/// Whether a polygon covers a point: an odd number of its outlines enclose it.
pub open spec fn covers<M: Fn((Real, Real), (Real, Real), Real) -> Real>(
    p: Polygon,
    at: (Real, Real),
    meet: M,
) -> bool {
    enclosing(p.rings@, p.rings@.len() as int, at, meet) % 2 == 1
}

/// Whether a polygon covers a point.
pub fn point_in_polygon<M: Fn((Real, Real), (Real, Real), Real) -> Real>(
    at: (Real, Real),
    p: &Polygon,
    meet: &M,
) -> (r: bool)
    requires
        given::settled3(*meet),
    ensures
        r == covers(*p, at, *meet),
{
    let mut inside: bool = false;
    let mut k: usize = 0;
    while k < p.rings.len()
        invariant
            k <= p.rings@.len(),
            given::settled3(*meet),
            inside == (enclosing(p.rings@, k as int, at, *meet) % 2 == 1),
        decreases p.rings@.len() - k,
    {
        if point_in_ring(at, &p.rings[k], meet) {
            inside = !inside;
        }
        k += 1;
    }
    inside
}

/// A point in a hole of a polygon is not covered by it, one in its outline alone is.
pub proof fn law_holes_are_not_covered<M: Fn((Real, Real), (Real, Real), Real) -> Real>(
    p: Polygon,
    at: (Real, Real),
    meet: M,
)
    requires
        p.rings@.len() == 2,
        encloses(p.rings@[0]@, at, meet),
    ensures
        covers(p, at, meet) <==> !encloses(p.rings@[1]@, at, meet),
{
    reveal_with_fuel(enclosing, 3);
}

/// Whether a cell lies in a span: from the first column and row on, and before the last.
pub open spec fn in_span(span: (usize, usize, usize, usize), i: int, j: int) -> bool {
    span.0 <= i < span.1 && span.2 <= j < span.3
}

/// Whether one of the first `n` polygons makes a cell land: the centre of the cell is
/// within the span of the polygon, and covered by it.
pub open spec fn land_at<
    S: Fn(LonLatBbox) -> (usize, usize, usize, usize),
    C: Fn(usize, usize) -> (Real, Real),
    M: Fn((Real, Real), (Real, Real), Real) -> Real,
>(polygons: Seq<Polygon>, n: int, i: int, j: int, span: S, centre: C, meet: M) -> bool {
    exists|p: int| 0 <= p < n && #[trigger] lies_in(polygons[p], i, j, span, centre, meet)
}

/// Whether a polygon makes a cell land.
pub open spec fn lies_in<
    S: Fn(LonLatBbox) -> (usize, usize, usize, usize),
    C: Fn(usize, usize) -> (Real, Real),
    M: Fn((Real, Real), (Real, Real), Real) -> Real,
>(p: Polygon, i: int, j: int, span: S, centre: C, meet: M) -> bool {
    in_span(given::gives1(span, extent(p)), i, j) && covers(
        p,
        given::gives2(centre, i as usize, j as usize),
        meet,
    )
}

/// Which cells are land. `span` tells which columns and rows have their centres within
/// a rectangle, `centre` where the centre of a cell is, and `meet` at which longitude a
/// side crosses a latitude.
pub fn rasterise_mask<
    S: Fn(LonLatBbox) -> (usize, usize, usize, usize),
    C: Fn(usize, usize) -> (Real, Real),
    M: Fn((Real, Real), (Real, Real), Real) -> Real,
>(
    polygons: &Vec<Polygon>,
    width: usize,
    height: usize,
    span: &S,
    centre: &C,
    meet: &M,
) -> (mask: Vec<bool>)
    requires
        width > 0,
        width * height <= usize::MAX,
        given::settled1(*span),
        given::settled2(*centre),
        given::settled3(*meet),
    ensures
        mask@.len() == width * height,
        forall|c: int|
            0 <= c < mask@.len() ==> #[trigger] mask@[c] == land_at(
                polygons@,
                polygons@.len() as int,
                c % (width as int),
                c / (width as int),
                *span,
                *centre,
                *meet,
            ),
{
    let n: usize = width * height;
    let ghost w = width as int;
    let mut mask: Vec<bool> = Vec::new();
    while mask.len() < n
        invariant
            mask@.len() <= n,
            forall|c: int| 0 <= c < mask@.len() ==> !#[trigger] mask@[c],
        decreases n - mask@.len(),
    {
        mask.push(false);
    }
    let mut p: usize = 0;
    while p < polygons.len()
        invariant
            p <= polygons@.len(),
            n == width * height,
            w == width,
            width > 0,
            given::settled1(*span),
            given::settled2(*centre),
            given::settled3(*meet),
            mask@.len() == n,
            forall|c: int|
                0 <= c < n ==> #[trigger] mask@[c] == land_at(
                    polygons@,
                    p as int,
                    c % w,
                    c / w,
                    *span,
                    *centre,
                    *meet,
                ),
        decreases polygons@.len() - p,
    {
        let poly: &Polygon = &polygons[p];
        let bbox: LonLatBbox = polygon_bbox(poly);
        let (i_lo, i_hi, j_lo, j_hi): (usize, usize, usize, usize) = span(bbox);
        let i_end: usize = if i_hi < width { i_hi } else { width };
        let j_end: usize = if j_hi < height { j_hi } else { height };
        let ghost was = mask@;
        let mut j: usize = j_lo;
        while j < j_end
            invariant
                j_lo <= j,
                p < polygons@.len(),
                *poly == polygons@[p as int],
                (i_lo, i_hi, j_lo, j_hi) == given::gives1(*span, extent(*poly)),
                i_end <= width,
                i_end == i_hi || i_end == width,
                i_end <= i_hi,
                j_end <= height,
                j_end <= j_hi,
                n == width * height,
                w == width,
                width > 0,
                given::settled2(*centre),
                given::settled3(*meet),
                mask@.len() == n,
                was.len() == n,
                forall|c: int|
                    0 <= c < n ==> #[trigger] mask@[c] == (was[c] || (c / w < j && lies_in(
                        *poly,
                        c % w,
                        c / w,
                        *span,
                        *centre,
                        *meet,
                    ))),
            decreases j_end - j,
        {
            let mut i: usize = i_lo;
            while i < i_end
                invariant
                    i_lo <= i,
                    j_lo <= j < j_end,
                    (i_lo, i_hi, j_lo, j_hi) == given::gives1(*span, extent(*poly)),
                    i_end <= width,
                    i_end == i_hi || i_end == width,
                    i_end <= i_hi,
                    j_end <= height,
                    j_end <= j_hi,
                    n == width * height,
                    w == width,
                    width > 0,
                    given::settled2(*centre),
                    given::settled3(*meet),
                    mask@.len() == n,
                    was.len() == n,
                    forall|c: int|
                        0 <= c < n ==> #[trigger] mask@[c] == (was[c] || ((c / w < j || (c / w == j
                            && c % w < i)) && lies_in(
                            *poly,
                            c % w,
                            c / w,
                            *span,
                            *centre,
                            *meet,
                        ))),
                decreases i_end - i,
            {
                proof {
                    places::lemma_cell_place(w, height as int, i as int, j as int);
                }
                let c: usize = j * width + i;
                let at: (Real, Real) = centre(i, j);
                let ghost held = mask@;
                assert(at == given::gives2(*centre, i, j));
                if !mask[c] && point_in_polygon(at, poly, meet) {
                    mask.set(c, true);
                }
                proof {
                    assert forall|d: int| 0 <= d < n implies #[trigger] mask@[d] == (was[d] || ((d
                        / w < j || (d / w == j && d % w < i + 1)) && lies_in(
                        *poly,
                        d % w,
                        d / w,
                        *span,
                        *centre,
                        *meet,
                    ))) by {
                        places::lemma_place_of_cell(w, height as int, d);
                        assert(held[d] == (was[d] || ((d / w < j || (d / w == j && d % w < i))
                            && lies_in(*poly, d % w, d / w, *span, *centre, *meet))));
                        if d / w == j && d % w == i {
                            assert(d == c);
                        } else {
                            assert(d != c);
                        }
                    }
                }
                i += 1;
            }
            proof {
                assert forall|c: int| 0 <= c < n implies #[trigger] mask@[c] == (was[c] || (c / w < j
                    + 1 && lies_in(*poly, c % w, c / w, *span, *centre, *meet))) by {
                    places::lemma_place_of_cell(w, height as int, c);
                }
            }
            j += 1;
        }
        proof {
            assert forall|c: int| 0 <= c < n implies #[trigger] mask@[c] == land_at(
                polygons@,
                p + 1,
                c % w,
                c / w,
                *span,
                *centre,
                *meet,
            ) by {
                places::lemma_place_of_cell(w, height as int, c);
                let before = land_at(polygons@, p as int, c % w, c / w, *span, *centre, *meet);
                assert(was[c] == before);
                if lies_in(polygons@[p as int], c % w, c / w, *span, *centre, *meet) {
                    assert(land_at(polygons@, p + 1, c % w, c / w, *span, *centre, *meet));
                }
                if before {
                    let q = choose|q: int|
                        0 <= q < p && #[trigger] lies_in(
                            polygons@[q],
                            c % w,
                            c / w,
                            *span,
                            *centre,
                            *meet,
                        );
                    assert(lies_in(polygons@[q], c % w, c / w, *span, *centre, *meet));
                }
            }
        }
        p += 1;
    }
    mask
}

/// The column that a number stands for: counted round where columns wrap, else the one
/// of that number, where there is one.
pub open spec fn column(ci: int, w: int, lon_wrap: bool) -> Option<int> {
    if lon_wrap {
        Some(grid::wrapped(ci, w))
    } else if 0 <= ci < w {
        Some(ci)
    } else {
        None
    }
}

/// The leg of a strait, from one point to another.
pub type Leg = ((Real, Real), (Real, Real));

/// Whether the cell of column `i` and row `j` is that of one of the columns from `lo` on
/// and before `end` that `near` says is near enough. These columns are counted on past
/// the edges of the grid.
pub open spec fn swept<N: Fn(Leg, (isize, usize)) -> bool>(
    leg: Leg,
    i: int,
    j: int,
    lo: int,
    end: int,
    w: int,
    lon_wrap: bool,
    near: N,
) -> bool {
    exists|ci: int|
        lo <= ci < end && #[trigger] column(ci, w, lon_wrap) == Some(i) && given::gives2(
            near,
            leg,
            (ci as isize, j as usize),
        )
}

/// Whether a leg opens a cell: its row and one of its columns, counted on past the edges
/// of the grid, are within the span, and `near` says that they are near enough.
pub open spec fn opens<N: Fn(Leg, (isize, usize)) -> bool>(
    span: (isize, isize, isize, isize),
    leg: Leg,
    i: int,
    j: int,
    w: int,
    lon_wrap: bool,
    near: N,
) -> bool {
    &&& span.2 <= j <= span.3
    &&& swept(leg, i, j, span.0 as int, span.1 + 1, w, lon_wrap, near)
}

/// Makes the cells near a leg sea. `span` holds the first and the last column and the
/// first and the last row that can be near; columns wrap or are left out where there
/// are none of that number.
pub fn carve_capsule<N: Fn(Leg, (isize, usize)) -> bool>(
    mask: &mut Vec<bool>,
    width: usize,
    height: usize,
    lon_wrap: bool,
    span: (isize, isize, isize, isize),
    leg: Leg,
    near: &N,
)
    requires
        width > 0,
        old(mask)@.len() == width * height,
        span.1 < isize::MAX,
        given::settled2(*near),
    ensures
        final(mask)@.len() == old(mask)@.len(),
        forall|c: int|
            0 <= c < final(mask)@.len() ==> #[trigger] final(mask)@[c] == (old(mask)@[c] && !opens(
                span,
                leg,
                c % (width as int),
                c / (width as int),
                width as int,
                lon_wrap,
                *near,
            )),
{
    let (lo_i, hi_i, lo_j, hi_j): (isize, isize, isize, isize) = span;
    let ghost w = width as int;
    let ghost h = height as int;
    let ghost was = mask@;
    let n: usize = mask.len();
    if hi_j < 0 {
        proof {
            assert forall|c: int| 0 <= c < n implies !#[trigger] opens(
                span,
                leg,
                c % w,
                c / w,
                w,
                lon_wrap,
                *near,
            ) by {
                places::lemma_place_of_cell(w, h, c);
            }
        }
        return;
    }
    let start: usize = if lo_j < 0 { 0 } else { lo_j as usize };
    let stop: usize = if (hi_j as usize) < height { hi_j as usize + 1 } else { height };
    let mut j: usize = start;
    while j < stop
        invariant
            start <= j,
            stop <= height,
            stop <= hi_j + 1,
            start == (if lo_j < 0 {
                0
            } else {
                lo_j as int
            }),
            n == width * height,
            w == width,
            h == height,
            width > 0,
            span == (lo_i, hi_i, lo_j, hi_j),
            hi_i < isize::MAX,
            given::settled2(*near),
            mask@.len() == n,
            was.len() == n,
            forall|c: int|
                0 <= c < n ==> #[trigger] mask@[c] == (was[c] && !(c / w < j && opens(
                    span,
                    leg,
                    c % w,
                    c / w,
                    w,
                    lon_wrap,
                    *near,
                ))),
        decreases stop - j,
    {
        let mut ci: isize = lo_i;
        proof {
            assert forall|c: int| 0 <= c < n implies #[trigger] mask@[c] == (was[c] && !((c / w < j
                && opens(span, leg, c % w, c / w, w, lon_wrap, *near)) || (c / w == j && swept(leg, c % w, c / w, lo_i as int, ci as int, w, lon_wrap, *near)))) by {
                assert(!swept(leg, c % w, c / w, lo_i as int, lo_i as int, w, lon_wrap, *near));
            }
        }
        while ci <= hi_i
            invariant
                lo_i <= ci,
                lo_i <= hi_i ==> ci <= hi_i + 1,
                lo_i > hi_i ==> ci == lo_i,
                start <= j < stop,
                stop <= height,
                n == width * height,
                w == width,
                h == height,
                width > 0,
                span == (lo_i, hi_i, lo_j, hi_j),
                hi_i < isize::MAX,
                given::settled2(*near),
                mask@.len() == n,
                was.len() == n,
                forall|c: int|
                    0 <= c < n ==> #[trigger] mask@[c] == (was[c] && !((c / w < j && opens(
                        span,
                        leg,
                        c % w,
                        c / w,
                        w,
                        lon_wrap,
                        *near,
                    )) || (c / w == j && swept(leg, c % w, c / w, lo_i as int, ci as int, w, lon_wrap, *near)))),
            decreases hi_i + 1 - ci,
        {
            let found: Option<usize> = if lon_wrap {
                Some(wrap_column(ci, width))
            } else if ci < 0 || ci as usize >= width {
                None
            } else {
                Some(ci as usize)
            };
            let ghost held = mask@;
            if let Some(i) = found {
                proof {
                    places::lemma_cell_place(w, h, i as int, j as int);
                }
                if near(leg, (ci, j)) {
                    mask.set(j * width + i, false);
                }
            }
            proof {
                assert forall|c: int| 0 <= c < n implies #[trigger] mask@[c] == (was[c] && !((c / w
                    < j && opens(span, leg, c % w, c / w, w, lon_wrap, *near)) || (c / w == j
                    && swept(leg, c % w, c / w, lo_i as int, ci + 1, w, lon_wrap, *near)))) by {
                    places::lemma_place_of_cell(w, h, c);
                    lemma_swept_on(leg, c % w, c / w, lo_i as int, ci as int, w, lon_wrap, *near);
                    assert(held[c] == (was[c] && !((c / w < j && opens(
                        span,
                        leg,
                        c % w,
                        c / w,
                        w,
                        lon_wrap,
                        *near,
                    )) || (c / w == j && swept(leg, c % w, c / w, lo_i as int, ci as int, w, lon_wrap, *near)))));
                    if let Some(i) = found {
                        if c / w == j && c % w == i {
                            assert(c == j * w + i);
                        }
                    }
                }
            }
            ci += 1;
        }
        proof {
            assert forall|c: int| 0 <= c < n implies #[trigger] mask@[c] == (was[c] && !(c / w < j
                + 1 && opens(span, leg, c % w, c / w, w, lon_wrap, *near))) by {
                if c / w == j {
                    if lo_i > hi_i {
                        assert(!swept(leg, c % w, c / w, lo_i as int, hi_i + 1, w, lon_wrap, *near));
                        assert(!swept(leg, c % w, c / w, lo_i as int, ci as int, w, lon_wrap, *near));
                    }
                }
            }
        }
        j += 1;
    }
    proof {
        assert forall|c: int| 0 <= c < n implies #[trigger] mask@[c] == (was[c] && !opens(
            span,
            leg,
            c % w,
            c / w,
            w,
            lon_wrap,
            *near,
        )) by {
            places::lemma_place_of_cell(w, h, c);
        }
    }
}

/// One more column is swept.
proof fn lemma_swept_on<N: Fn(Leg, (isize, usize)) -> bool>(
    leg: Leg,
    i: int,
    j: int,
    lo: int,
    ci: int,
    w: int,
    lon_wrap: bool,
    near: N,
)
    requires
        lo <= ci,
    ensures
        swept(leg, i, j, lo, ci + 1, w, lon_wrap, near) <==> swept(
            leg,
            i,
            j,
            lo,
            ci,
            w,
            lon_wrap,
            near,
        ) || (column(ci, w, lon_wrap) == Some(i) && given::gives2(
            near,
            leg,
            (ci as isize, j as usize),
        )),
{
    if swept(leg, i, j, lo, ci, w, lon_wrap, near) {
        let x = choose|x: int|
            lo <= x < ci && #[trigger] column(x, w, lon_wrap) == Some(i) && given::gives2(
                near,
                leg,
                (x as isize, j as usize),
            );
        assert(lo <= x < ci + 1 && column(x, w, lon_wrap) == Some(i));
    }
}

/// The legs of a strait: from each point to the next, or from the only one to itself.
pub open spec fn legs_of(points: Seq<(Real, Real)>) -> Seq<Leg> {
    if points.len() == 0 {
        Seq::empty()
    } else if points.len() == 1 {
        seq![(points[0], points[0])]
    } else {
        Seq::new((points.len() - 1) as nat, |k: int| (points[k], points[k + 1]))
    }
}

/// The legs of a strait.
pub fn strait_legs(points: &Vec<(Real, Real)>) -> (legs: Vec<Leg>)
    ensures
        legs@ == legs_of(points@),
{
    let mut legs: Vec<Leg> = Vec::new();
    let n: usize = points.len();
    if n == 0 {
        assert(legs@ =~= legs_of(points@));
        return legs;
    }
    if n == 1 {
        legs.push((points[0], points[0]));
        assert(legs@ =~= legs_of(points@));
        return legs;
    }
    let mut k: usize = 0;
    while k + 1 < n
        invariant
            k < n,
            n == points@.len(),
            n >= 2,
            legs@ == legs_of(points@).take(k as int),
        decreases n - k,
    {
        legs.push((points[k], points[k + 1]));
        assert(legs@ =~= legs_of(points@).take(k + 1));
        k += 1;
    }
    assert(legs_of(points@).take(k as int) =~= legs_of(points@));
    legs
}

/// Whether one of the first `n` legs opens a cell.
pub open spec fn opened_by<
    S: Fn(Leg) -> (isize, isize, isize, isize),
    N: Fn(Leg, (isize, usize)) -> bool,
>(legs: Seq<Leg>, n: int, i: int, j: int, w: int, lon_wrap: bool, span: S, near: N) -> bool {
    exists|k: int|
        0 <= k < n && opens(
            given::gives1(span, #[trigger] legs[k]),
            legs[k],
            i,
            j,
            w,
            lon_wrap,
            near,
        )
}

/// Makes the cells near the legs of straits sea. `span` tells which columns and rows can
/// be near a leg, and `near` which cells are.
pub fn apply_strait_carve_outs<
    S: Fn(Leg) -> (isize, isize, isize, isize),
    N: Fn(Leg, (isize, usize)) -> bool,
>(
    mask: &mut Vec<bool>,
    width: usize,
    height: usize,
    lon_wrap: bool,
    legs: &Vec<Leg>,
    span: &S,
    near: &N,
)
    requires
        width > 0,
        old(mask)@.len() == width * height,
        given::settled1(*span),
        given::settled2(*near),
        forall|leg: Leg| (#[trigger] given::gives1(*span, leg)).1 < isize::MAX,
    ensures
        final(mask)@.len() == old(mask)@.len(),
        forall|c: int|
            0 <= c < final(mask)@.len() ==> #[trigger] final(mask)@[c] == (old(mask)@[c]
                && !opened_by(
                legs@,
                legs@.len() as int,
                c % (width as int),
                c / (width as int),
                width as int,
                lon_wrap,
                *span,
                *near,
            )),
{
    let ghost w = width as int;
    let ghost was = mask@;
    let mut k: usize = 0;
    while k < legs.len()
        invariant
            k <= legs@.len(),
            w == width,
            width > 0,
            was.len() == width * height,
            mask@.len() == was.len(),
            given::settled1(*span),
            given::settled2(*near),
            forall|leg: Leg| (#[trigger] given::gives1(*span, leg)).1 < isize::MAX,
            forall|c: int|
                0 <= c < mask@.len() ==> #[trigger] mask@[c] == (was[c] && !opened_by(
                    legs@,
                    k as int,
                    c % w,
                    c / w,
                    w,
                    lon_wrap,
                    *span,
                    *near,
                )),
        decreases legs@.len() - k,
    {
        let leg: Leg = legs[k];
        let around: (isize, isize, isize, isize) = span(leg);
        let ghost held = mask@;
        assert(around == given::gives1(*span, leg));
        carve_capsule(mask, width, height, lon_wrap, around, leg, near);
        proof {
            assert forall|c: int| 0 <= c < mask@.len() implies #[trigger] mask@[c] == (was[c]
                && !opened_by(legs@, k + 1, c % w, c / w, w, lon_wrap, *span, *near)) by {
                assert(held[c] == (was[c] && !opened_by(
                    legs@,
                    k as int,
                    c % w,
                    c / w,
                    w,
                    lon_wrap,
                    *span,
                    *near,
                )));
                if opened_by(legs@, k as int, c % w, c / w, w, lon_wrap, *span, *near) {
                    let q = choose|q: int|
                        0 <= q < k && opens(
                            given::gives1(*span, #[trigger] legs@[q]),
                            legs@[q],
                            c % w,
                            c / w,
                            w,
                            lon_wrap,
                            *near,
                        );
                    assert(0 <= q < k + 1 && legs@[q] == legs@[q]);
                }
                assert(legs@[k as int] == leg);
            }
        }
        k += 1;
    }
}

/// The slope at every cell. `slope` tells it from the row of a cell and the distances
/// to the coast to its east, west, north and south; columns wrap or stop at the edge,
/// rows stop at the edge.
pub fn compute_gradient<
    G: Fn(usize, (Real32, Real32, Real32, Real32)) -> (Real32, Real32),
>(sdf_m: &Vec<Real32>, width: usize, height: usize, lon_wrap: bool, slope: &G) -> (grad: Vec<
    (Real32, Real32),
>)
    requires
        width > 0,
        sdf_m@.len() == width * height,
        given::settled2(*slope),
    ensures
        grad@.len() == sdf_m@.len(),
        forall|c: int|
            0 <= c < grad@.len() ==> #[trigger] grad@[c] == given::gives2(
                *slope,
                (c / (width as int)) as usize,
                beside(sdf_m@, width as int, height as int, lon_wrap, c),
            ),
{
    let n: usize = sdf_m.len();
    let mut grad: Vec<(Real32, Real32)> = Vec::new();
    let ghost w = width as int;
    let ghost h = height as int;
    while grad.len() < n
        invariant
            grad@.len() <= n,
            n == sdf_m@.len(),
            n == width * height,
            w == width,
            h == height,
            width > 0,
            given::settled2(*slope),
            forall|c: int|
                0 <= c < grad@.len() ==> #[trigger] grad@[c] == given::gives2(
                    *slope,
                    (c / w) as usize,
                    beside(sdf_m@, w, h, lon_wrap, c),
                ),
        decreases n - grad@.len(),
    {
        let c: usize = grad.len();
        let i: usize = c % width;
        let j: usize = c / width;
        proof {
            places::lemma_place_of_cell(w, h, c as int);
        }
        let (west, east, south, north) = slope_neighbours(width, height, lon_wrap, i, j);
        proof {
            vstd::arithmetic::div_mod::lemma_mod_bound(i - 1, w);
            vstd::arithmetic::div_mod::lemma_mod_bound(i + 1, w);
            places::lemma_cell_place(w, h, east as int, j as int);
            places::lemma_cell_place(w, h, west as int, j as int);
            places::lemma_cell_place(w, h, i as int, north as int);
            places::lemma_cell_place(w, h, i as int, south as int);
        }
        let around: (Real32, Real32, Real32, Real32) = (
            sdf_m[j * width + east],
            sdf_m[j * width + west],
            sdf_m[north * width + i],
            sdf_m[south * width + i],
        );
        grad.push(slope(j, around));
    }
    grad
}

/// The distances to the east, west, north and south of a cell.
pub open spec fn beside(sdf: Seq<Real32>, w: int, h: int, lon_wrap: bool, c: int) -> (
    Real32,
    Real32,
    Real32,
    Real32,
) {
    let i = c % w;
    let j = c / w;
    let west = if lon_wrap {
        grid::wrapped(i - 1, w)
    } else if i > 0 {
        i - 1
    } else {
        0
    };
    let east = if lon_wrap {
        grid::wrapped(i + 1, w)
    } else if i + 1 < w {
        i + 1
    } else {
        i
    };
    let south = if j > 0 {
        j - 1
    } else {
        0
    };
    let north = if j + 1 < h {
        j + 1
    } else {
        j
    };
    (sdf[j * w + east], sdf[j * w + west], sdf[north * w + i], sdf[south * w + i])
}

} // verus!
