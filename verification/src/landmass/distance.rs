//! Exact distances over a grid of cells.
//!
//! Each cell gets the offset from the nearest of some seed cells to itself, in columns
//! and rows. The nearest seed of a cell's own row is looked for first, for every cell;
//! the nearest seed of all is then the best of those of the cell's column.
use crate::landmass::places;
use crate::landmass::places::in_grid;
use vstd::prelude::*;

verus! {

/// Both parts of the offset of a cell where there is no seed.
pub const INF: i32 = 16_777_216;

/// The most columns, and the most rows, that offsets can be told for.
pub const MAX_SIDE: usize = 0x7FFF_FFFF;

/// The square of an offset's length.
pub open spec fn len_sq(o: (int, int)) -> int {
    o.0 * o.0 + o.1 * o.1
}

/// How many columns apart two columns of a grid `w` columns wide are. In a wrapping grid
/// the shorter way round counts.
pub open spec fn gap(w: int, wrap: bool, s: int, i: int) -> int {
    let d = if s <= i {
        i - s
    } else {
        s - i
    };
    if wrap && w - d < d {
        w - d
    } else {
        d
    }
}

/// Whether `dx` leads from column `s` to column `i`, one way or, in a wrapping grid, the
/// other way round.
pub open spec fn leads(w: int, wrap: bool, s: int, i: int, dx: int) -> bool {
    dx == i - s || (wrap && (dx == i - s + w || dx == i - s - w))
}

/// Whether there is a seed in column `i` of row `j`.
pub open spec fn seed_at(seeds: Seq<bool>, w: int, i: int, j: int) -> bool {
    seeds[j * w + i]
}

/// Whether the grid has a seed.
pub open spec fn has_seed(seeds: Seq<bool>, w: int, h: int) -> bool {
    exists|i: int, j: int| in_grid(w, h, i, j) && #[trigger] seed_at(seeds, w, i, j)
}

/// Whether an offset leads from a seed to the cell in column `i` of row `j`.
pub open spec fn from_seed(
    seeds: Seq<bool>,
    w: int,
    h: int,
    wrap: bool,
    i: int,
    j: int,
    o: (int, int),
) -> bool {
    exists|si: int, sj: int|
        in_grid(w, h, si, sj) && #[trigger] seed_at(seeds, w, si, sj) && leads(w, wrap, si, i, o.0)
            && o.1 == j - sj
}

/// Whether no seed is nearer to the cell in column `i` of row `j` than the square of a
/// distance says.
pub open spec fn none_nearer(
    seeds: Seq<bool>,
    w: int,
    h: int,
    wrap: bool,
    i: int,
    j: int,
    sq: int,
) -> bool {
    forall|si: int, sj: int|
        in_grid(w, h, si, sj) && #[trigger] seed_at(seeds, w, si, sj) ==> sq <= gap(w, wrap, si, i)
            * gap(w, wrap, si, i) + (j - sj) * (j - sj)
}

/// Whether `o` is the offset from a nearest seed to the cell in column `i` of row `j`,
/// or the mark of a grid without seeds.
pub open spec fn nearest(
    seeds: Seq<bool>,
    w: int,
    h: int,
    wrap: bool,
    i: int,
    j: int,
    o: (int, int),
) -> bool {
    if has_seed(seeds, w, h) {
        from_seed(seeds, w, h, wrap, i, j, o) && none_nearer(seeds, w, h, wrap, i, j, len_sq(o))
    } else {
        o == (INF as int, INF as int)
    }
}

/// A nearest offset of the cell in column `i` of row `j`.
pub open spec fn nearest_offset(seeds: Seq<bool>, w: int, h: int, wrap: bool, i: int, j: int) -> (int, int) {
    choose|o: (int, int)| nearest(seeds, w, h, wrap, i, j, o)
}

/// The square of the distance from cell `c` to the nearest seed, in cells.
pub open spec fn nearest_sq(seeds: Seq<bool>, w: int, h: int, wrap: bool, c: int) -> int {
    len_sq(nearest_offset(seeds, w, h, wrap, c % w, c / w))
}

/// An offset that leads from one column to another is no shorter than the gap between
/// them.
proof fn lemma_leads_over_gap(w: int, wrap: bool, s: int, i: int, dx: int)
    requires
        0 <= s < w,
        0 <= i < w,
        leads(w, wrap, s, i, dx),
    ensures
        gap(w, wrap, s, i) * gap(w, wrap, s, i) <= dx * dx,
        gap(w, wrap, s, i) >= 0,
{
    let g = gap(w, wrap, s, i);
    assert(g * g <= dx * dx) by (nonlinear_arith)
        requires
            0 <= g,
            g <= dx || g <= -dx,
    ;
}

/// The square of the distance from a cell to the one in column `si` of row `sj`.
spec fn apart_sq(w: int, wrap: bool, si: int, sj: int, i: int, j: int) -> int {
    gap(w, wrap, si, i) * gap(w, wrap, si, i) + (j - sj) * (j - sj)
}

/// Where there is a seed there is a nearest one.
proof fn lemma_nearest_below(
    seeds: Seq<bool>,
    w: int,
    h: int,
    wrap: bool,
    i: int,
    j: int,
    si: int,
    sj: int,
)
    requires
        in_grid(w, h, i, j),
        in_grid(w, h, si, sj),
        seed_at(seeds, w, si, sj),
    ensures
        exists|o: (int, int)| nearest(seeds, w, h, wrap, i, j, o),
    decreases apart_sq(w, wrap, si, sj, i, j),
{
    let g = gap(w, wrap, si, i);
    let dx = if g == i - si || g == si - i {
        i - si
    } else if si <= i {
        i - si - w
    } else {
        i - si + w
    };
    let o = (dx, j - sj);
    assert(dx * dx == g * g) by (nonlinear_arith)
        requires
            dx == g || dx == -g,
    ;
    assert(from_seed(seeds, w, h, wrap, i, j, o));
    assert(has_seed(seeds, w, h));
    if none_nearer(seeds, w, h, wrap, i, j, len_sq(o)) {
        assert(nearest(seeds, w, h, wrap, i, j, o));
    } else {
        let (ti, tj) = choose|ti: int, tj: int|
            in_grid(w, h, ti, tj) && #[trigger] seed_at(seeds, w, ti, tj) && !(len_sq(o) <= gap(
                w,
                wrap,
                ti,
                i,
            ) * gap(w, wrap, ti, i) + (j - tj) * (j - tj));
        let e = gap(w, wrap, ti, i);
        let y = j - tj;
        assert(e * e + y * y >= 0) by (nonlinear_arith);
        lemma_nearest_below(seeds, w, h, wrap, i, j, ti, tj);
    }
}

/// There is a nearest offset for every cell.
pub proof fn lemma_some_nearest(seeds: Seq<bool>, w: int, h: int, wrap: bool, i: int, j: int)
    requires
        in_grid(w, h, i, j),
    ensures
        exists|o: (int, int)| nearest(seeds, w, h, wrap, i, j, o),
{
    if has_seed(seeds, w, h) {
        let (si, sj) = choose|si: int, sj: int|
            in_grid(w, h, si, sj) && #[trigger] seed_at(seeds, w, si, sj);
        lemma_nearest_below(seeds, w, h, wrap, i, j, si, sj);
    } else {
        assert(nearest(seeds, w, h, wrap, i, j, (INF as int, INF as int)));
    }
}

/// All nearest offsets of a cell are as long.
pub proof fn law_nearest_is_one_distance(
    seeds: Seq<bool>,
    w: int,
    h: int,
    wrap: bool,
    i: int,
    j: int,
    o: (int, int),
    p: (int, int),
)
    requires
        in_grid(w, h, i, j),
        nearest(seeds, w, h, wrap, i, j, o),
        nearest(seeds, w, h, wrap, i, j, p),
    ensures
        len_sq(o) == len_sq(p),
{
    if has_seed(seeds, w, h) {
        let (si, sj) = choose|si: int, sj: int|
            in_grid(w, h, si, sj) && #[trigger] seed_at(seeds, w, si, sj) && leads(w, wrap, si, i, o.0)
                && o.1 == j - sj;
        let (ti, tj) = choose|ti: int, tj: int|
            in_grid(w, h, ti, tj) && #[trigger] seed_at(seeds, w, ti, tj) && leads(w, wrap, ti, i, p.0)
                && p.1 == j - tj;
        lemma_leads_over_gap(w, wrap, si, i, o.0);
        lemma_leads_over_gap(w, wrap, ti, i, p.0);
    }
}

/// A cell is nothing away from the nearest seed just where it is a seed itself.
pub proof fn law_only_seeds_are_near(
    seeds: Seq<bool>,
    w: int,
    h: int,
    wrap: bool,
    i: int,
    j: int,
    o: (int, int),
)
    requires
        in_grid(w, h, i, j),
        nearest(seeds, w, h, wrap, i, j, o),
    ensures
        len_sq(o) >= 0,
        len_sq(o) == 0 <==> seed_at(seeds, w, i, j),
{
    let x = o.0;
    let y = o.1;
    assert(x * x + y * y >= 0 && (x * x + y * y == 0 ==> x == 0 && y == 0)) by (nonlinear_arith);
    if seed_at(seeds, w, i, j) {
        assert(gap(w, wrap, i, i) == 0);
        assert(has_seed(seeds, w, h));
        assert((j - j) * (j - j) == 0 && 0 * 0 == 0int);
    }
}

/// The square of an offset's length, in cells.
pub fn dist_sq(g: (i32, i32)) -> (d: i64)
    requires
        !(g.0 == i32::MIN && g.1 == i32::MIN),
    ensures
        d == len_sq((g.0 as int, g.1 as int)),
        d >= 0,
{
    let x: i64 = g.0 as i64;
    let y: i64 = g.1 as i64;
    assert(0 <= x * x <= 0x4000_0000_0000_0000) by (nonlinear_arith)
        requires
            -0x8000_0000 <= x <= 0x7FFF_FFFF,
    ;
    assert(0 <= y * y <= 0x4000_0000_0000_0000) by (nonlinear_arith)
        requires
            -0x8000_0000 <= y <= 0x7FFF_FFFF,
    ;
    assert(x > -0x8000_0000 ==> x * x <= 0x3FFF_FFFF_0000_0001) by (nonlinear_arith)
        requires
            -0x8000_0000 <= x <= 0x7FFF_FFFF,
    ;
    assert(y > -0x8000_0000 ==> y * y <= 0x3FFF_FFFF_0000_0001) by (nonlinear_arith)
        requires
            -0x8000_0000 <= y <= 0x7FFF_FFFF,
    ;
    x * x + y * y
}

/// The offset of the nearest seed of a row to a cell of it, where the row has one.
fn nearest_in_row(seeds: &[bool], w: usize, h: usize, wrap: bool, i: usize, j: usize) -> (r: Option<
    i32,
>)
    requires
        seeds@.len() == w * h,
        w <= MAX_SIDE,
        i < w,
        j < h,
    ensures
        r is None ==> forall|s: int| 0 <= s < w ==> !(#[trigger] seed_at(seeds@, w as int, s, j as int)),
        r matches Some(dx) ==> {
            &&& -0x7FFF_FFFF < dx < 0x7FFF_FFFF
            &&& exists|s: int|
                0 <= s < w && #[trigger] seed_at(seeds@, w as int, s, j as int) && leads(
                    w as int,
                    wrap,
                    s,
                    i as int,
                    dx as int,
                )
            &&& forall|s: int|
                0 <= s < w && #[trigger] seed_at(seeds@, w as int, s, j as int) ==> {
                    ||| dx as int <= gap(w as int, wrap, s, i as int) && dx >= 0
                    ||| -(dx as int) <= gap(w as int, wrap, s, i as int) && dx <= 0
                }
        },
{
    proof {
        places::lemma_cell_place(w as int, h as int, i as int, j as int);
        places::lemma_row_end(w as int, h as int, i as int, j as int);
    }
    let n: usize = seeds.len();
    let base: usize = j * w;
    let mut d: usize = 0;
    while d < w
        invariant
            n == seeds@.len() == w * h,
            w <= MAX_SIDE,
            i < w,
            j < h,
            base == j * w,
            base + w <= w * h,
            d <= w,
            forall|s: int|
                0 <= s < w && gap(w as int, wrap, s, i as int) < d ==> !(#[trigger] seed_at(
                    seeds@,
                    w as int,
                    s,
                    j as int,
                )),
        decreases w - d,
    {
        if d <= i || wrap {
            let s: usize = if d <= i {
                i - d
            } else {
                i + (w - d)
            };
            if seeds[base + s] {
                assert(seed_at(seeds@, w as int, s as int, j as int));
                return Some(d as i32);
            }
            assert(!seed_at(seeds@, w as int, s as int, j as int));
        }
        if d < w - i || wrap {
            let s: usize = if d < w - i {
                i + d
            } else {
                d - (w - i)
            };
            if seeds[base + s] {
                assert(seed_at(seeds@, w as int, s as int, j as int));
                return Some(-(d as i32));
            }
            assert(!seed_at(seeds@, w as int, s as int, j as int));
        }
        d += 1;
    }
    None
}

/// Whether a row tells its nearest seed for each of its cells.
pub open spec fn row_told(
    seeds: Seq<bool>,
    w: int,
    wrap: bool,
    i: int,
    j: int,
    r: Option<i32>,
) -> bool {
    match r {
        None => forall|s: int| 0 <= s < w ==> !(#[trigger] seed_at(seeds, w, s, j)),
        Some(dx) => {
            &&& -0x7FFF_FFFF < dx < 0x7FFF_FFFF
            &&& exists|s: int|
                0 <= s < w && #[trigger] seed_at(seeds, w, s, j) && leads(w, wrap, s, i, dx as int)
            &&& forall|s: int|
                0 <= s < w && #[trigger] seed_at(seeds, w, s, j) ==> {
                    ||| dx as int <= gap(w, wrap, s, i) && dx >= 0
                    ||| -(dx as int) <= gap(w, wrap, s, i) && dx <= 0
                }
        },
    }
}

/// What is told of the cell in column `i` of row `r`.
spec fn told_at(rows: Seq<Option<i32>>, w: int, i: int, r: int) -> Option<i32> {
    rows[r * w + i]
}

/// Whether no seed of the rows less than `far` rows from row `j` is nearer to a cell than
/// `best` tells, and `best` leads from one of them.
spec fn best_within(
    seeds: Seq<bool>,
    w: int,
    h: int,
    wrap: bool,
    i: int,
    j: int,
    far: int,
    best: Option<(i32, i32)>,
) -> bool {
    &&& best matches Some(o) ==> {
        &&& -0x7FFF_FFFF < o.0 < 0x7FFF_FFFF
        &&& -0x7FFF_FFFF < o.1 < 0x7FFF_FFFF
        &&& from_seed(seeds, w, h, wrap, i, j, (o.0 as int, o.1 as int))
    }
    &&& forall|si: int, sj: int|
        in_grid(w, h, si, sj) && -far < j - sj < far && #[trigger] seed_at(seeds, w, si, sj) ==> {
            best matches Some(o) && len_sq((o.0 as int, o.1 as int)) <= gap(w, wrap, si, i) * gap(
                w,
                wrap,
                si,
                i,
            ) + (j - sj) * (j - sj)
        }
}

/// The better of what is known of a cell and what row `sj` tells.
fn improve(
    best: Option<(i32, i32)>,
    told: Option<i32>,
    j: usize,
    sj: usize,
    Ghost(seeds): Ghost<Seq<bool>>,
    Ghost(w): Ghost<int>,
    Ghost(h): Ghost<int>,
    Ghost(wrap): Ghost<bool>,
    Ghost(i): Ghost<int>,
) -> (r: Option<(i32, i32)>)
    requires
        h <= MAX_SIDE,
        0 <= i < w,
        j < h,
        sj < h,
        row_told(seeds, w, wrap, i, sj as int, told),
        best matches Some(o) ==> -0x7FFF_FFFF < o.0 < 0x7FFF_FFFF && -0x7FFF_FFFF < o.1 < 0x7FFF_FFFF
            && from_seed(seeds, w, h, wrap, i, j as int, (o.0 as int, o.1 as int)),
    ensures
        r matches Some(o) ==> -0x7FFF_FFFF < o.0 < 0x7FFF_FFFF && -0x7FFF_FFFF < o.1 < 0x7FFF_FFFF
            && from_seed(seeds, w, h, wrap, i, j as int, (o.0 as int, o.1 as int)),
        best matches Some(o) ==> (r matches Some(p) && len_sq((p.0 as int, p.1 as int)) <= len_sq(
            (o.0 as int, o.1 as int),
        )),
        forall|si: int|
            0 <= si < w && #[trigger] seed_at(seeds, w, si, sj as int) ==> {
                r matches Some(o) && len_sq((o.0 as int, o.1 as int)) <= gap(w, wrap, si, i) * gap(
                    w,
                    wrap,
                    si,
                    i,
                ) + (j - sj) * (j - sj)
            },
{
    let dx: i32 = match told {
        None => {
            return best;
        },
        Some(dx) => dx,
    };
    let dy: i32 = if j >= sj {
        (j - sj) as i32
    } else {
        -((sj - j) as i32)
    };
    let o: (i32, i32) = (dx, dy);
    proof {
        assert(dy == j - sj);
        assert(from_seed(seeds, w, h, wrap, i, j as int, (dx as int, dy as int)));
        assert forall|si: int| 0 <= si < w && #[trigger] seed_at(seeds, w, si, sj as int) implies len_sq(
            (dx as int, dy as int),
        ) <= gap(w, wrap, si, i) * gap(w, wrap, si, i) + (j - sj) * (j - sj) by {
            let g = gap(w, wrap, si, i);
            let x = dx as int;
            assert(x * x <= g * g) by (nonlinear_arith)
                requires
                    (x <= g && x >= 0) || (-x <= g && x <= 0),
            ;
        }
    }
    match best {
        None => Some(o),
        Some(b) => if dist_sq(o) < dist_sq(b) {
            Some(o)
        } else {
            Some(b)
        },
    }
}

/// The offset from the nearest seed to a cell, out of what the rows tell.
fn nearest_of_rows(
    rows: &Vec<Option<i32>>,
    w: usize,
    h: usize,
    i: usize,
    j: usize,
    Ghost(seeds): Ghost<Seq<bool>>,
    Ghost(wrap): Ghost<bool>,
) -> (o: (i32, i32))
    requires
        w <= MAX_SIDE,
        h <= MAX_SIDE,
        i < w,
        j < h,
        rows@.len() == w * h,
        forall|r: int|
            0 <= r < h ==> row_told(
                seeds,
                w as int,
                wrap,
                i as int,
                r,
                #[trigger] told_at(rows@, w as int, i as int, r),
            ),
    ensures
        nearest(seeds, w as int, h as int, wrap, i as int, j as int, (o.0 as int, o.1 as int)),
        len_sq((o.0 as int, o.1 as int)) <= i64::MAX,
        !(o.0 == i32::MIN && o.1 == i32::MIN),
{
    let n: usize = rows.len();
    let mut best: Option<(i32, i32)> = None;
    let mut far: usize = 0;
    while far < h
        invariant
            w <= MAX_SIDE,
            h <= MAX_SIDE,
            i < w,
            j < h,
            n == rows@.len() == w * h,
            forall|r: int|
                0 <= r < h ==> row_told(
                    seeds,
                    w as int,
                    wrap,
                    i as int,
                    r,
                    #[trigger] told_at(rows@, w as int, i as int, r),
                ),
            far <= h,
            best_within(seeds, w as int, h as int, wrap, i as int, j as int, far as int, best),
        decreases h - far,
    {
        if let Some(o) = best {
            let sq: i64 = dist_sq(o);
            let f: i64 = far as i64;
            assert(0 <= f * f <= 0x3FFF_FFFF_FFFF_FFFF) by (nonlinear_arith)
                requires
                    0 <= f <= 0x7FFF_FFFF,
            ;
            if sq <= f * f {
                proof {
                    assert forall|si: int, sj: int|
                        in_grid(w as int, h as int, si, sj) && #[trigger] seed_at(seeds, w as int, si, sj) implies sq
                        <= gap(w as int, wrap, si, i as int) * gap(w as int, wrap, si, i as int) + (j - sj) * (j
                        - sj) by {
                        if !(-far < j - sj < far) {
                            let g = gap(w as int, wrap, si, i as int);
                            let y = j - sj;
                            assert(f * f <= g * g + y * y) by (nonlinear_arith)
                                requires
                                    y >= f || -y >= f,
                                    f >= 0,
                            ;
                        }
                    }
                    lemma_has_seed(seeds, w as int, h as int, wrap, i as int, j as int, (o.0 as int, o.1 as int));
                }
                return o;
            }
        }
        let ghost before = best;
        if far <= j {
            let sj: usize = j - far;
            proof {
                places::lemma_cell_place(w as int, h as int, i as int, sj as int);
                assert(row_told(seeds, w as int, wrap, i as int, sj as int, told_at(rows@, w as int, i as int, sj as int)));
            }
            best = improve(
                best,
                rows[sj * w + i],
                j,
                sj,
                Ghost(seeds),
                Ghost(w as int),
                Ghost(h as int),
                Ghost(wrap),
                Ghost(i as int),
            );
        }
        if far < h - j {
            let sj: usize = j + far;
            proof {
                places::lemma_cell_place(w as int, h as int, i as int, sj as int);
                assert(row_told(seeds, w as int, wrap, i as int, sj as int, told_at(rows@, w as int, i as int, sj as int)));
            }
            best = improve(
                best,
                rows[sj * w + i],
                j,
                sj,
                Ghost(seeds),
                Ghost(w as int),
                Ghost(h as int),
                Ghost(wrap),
                Ghost(i as int),
            );
        }
        far += 1;
    }
    match best {
        Some(o) => {
            let sq: i64 = dist_sq(o);
            proof {
                lemma_has_seed(seeds, w as int, h as int, wrap, i as int, j as int, (o.0 as int, o.1 as int));
            }
            o
        },
        None => (INF, INF),
    }
}

/// Where an offset leads from a seed there is one.
proof fn lemma_has_seed(
    seeds: Seq<bool>,
    w: int,
    h: int,
    wrap: bool,
    i: int,
    j: int,
    o: (int, int),
)
    requires
        from_seed(seeds, w, h, wrap, i, j, o),
    ensures
        has_seed(seeds, w, h),
{
}

/// Offsets from the nearest seed to every cell of a grid. `lon_wrap` makes the first and
/// last columns neighbours.
pub fn distance_transform(
    seed_mask: &[bool],
    width: usize,
    height: usize,
    lon_wrap: bool,
) -> (g: Vec<(i32, i32)>)
    requires
        seed_mask@.len() == width * height,
        width <= MAX_SIDE,
        height <= MAX_SIDE,
    ensures
        g@.len() == seed_mask@.len(),
        forall|c: int|
            0 <= c < g@.len() ==> nearest(
                seed_mask@,
                width as int,
                height as int,
                lon_wrap,
                c % width as int,
                c / width as int,
                ((#[trigger] g@[c]).0 as int, g@[c].1 as int),
            ),
        forall|c: int|
            0 <= c < g@.len() ==> !((#[trigger] g@[c]).0 == i32::MIN && g@[c].1 == i32::MIN),
{
    let n: usize = seed_mask.len();
    let mut rows: Vec<Option<i32>> = Vec::new();
    let mut c: usize = 0;
    while c < n
        invariant
            n == seed_mask@.len() == width * height,
            width <= MAX_SIDE,
            c <= n,
            rows@.len() == c,
            forall|k: int|
                0 <= k < c ==> row_told(
                    seed_mask@,
                    width as int,
                    lon_wrap,
                    k % width as int,
                    k / width as int,
                    #[trigger] rows@[k],
                ),
        decreases n - c,
    {
        proof {
            assert(width > 0) by (nonlinear_arith)
                requires
                    c < width * height,
                    c >= 0,
                    height >= 0,
            ;
            places::lemma_place_of_cell(width as int, height as int, c as int);
        }
        rows.push(nearest_in_row(seed_mask, width, height, lon_wrap, c % width, c / width));
        c += 1;
    }
    let mut g: Vec<(i32, i32)> = Vec::new();
    let mut c: usize = 0;
    while c < n
        invariant
            n == seed_mask@.len() == width * height,
            width <= MAX_SIDE,
            height <= MAX_SIDE,
            c <= n,
            rows@.len() == n,
            forall|k: int|
                0 <= k < n ==> row_told(
                    seed_mask@,
                    width as int,
                    lon_wrap,
                    k % width as int,
                    k / width as int,
                    #[trigger] rows@[k],
                ),
            g@.len() == c,
            forall|k: int|
                0 <= k < c ==> nearest(
                    seed_mask@,
                    width as int,
                    height as int,
                    lon_wrap,
                    k % width as int,
                    k / width as int,
                    ((#[trigger] g@[k]).0 as int, g@[k].1 as int),
                ),
            forall|k: int|
                0 <= k < c ==> !((#[trigger] g@[k]).0 == i32::MIN && g@[k].1 == i32::MIN),
        decreases n - c,
    {
        proof {
            assert(width > 0) by (nonlinear_arith)
                requires
                    c < width * height,
                    c >= 0,
                    height >= 0,
            ;
            places::lemma_place_of_cell(width as int, height as int, c as int);
            let i = c as int % width as int;
            assert forall|r: int| 0 <= r < height implies row_told(
                seed_mask@,
                width as int,
                lon_wrap,
                i,
                r,
                #[trigger] told_at(rows@, width as int, i, r),
            ) by {
                places::lemma_cell_place(width as int, height as int, i, r);
                assert(row_told(
                    seed_mask@,
                    width as int,
                    lon_wrap,
                    (r * width + i) % width as int,
                    (r * width + i) / width as int,
                    rows@[r * width + i],
                ));
            }
        }
        let o: (i32, i32) = nearest_of_rows(
            &rows,
            width,
            height,
            c % width,
            c / width,
            Ghost(seed_mask@),
            Ghost(lon_wrap),
        );
        g.push(o);
        c += 1;
    }
    g
}

} // verus!
