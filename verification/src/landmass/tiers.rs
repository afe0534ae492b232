//! What holds of the cells of two tiers, and of the areas that patches are laid over.
use crate::bounds::LonLatBbox;
use crate::landmass::patches;
use crate::landmass::places;
use crate::landmass::two_tier;
use crate::landmass::two_tier::{FinePatch, TwoTierCell, TwoTierLandmass};
use crate::number::{Real, Real32};
use vstd::prelude::*;

verus! {

/// The cells of the coarse grid come first, row by row: the number of a cell is one more
/// than that of the cell to its west, and the first of a row follows the last of the row
/// before.
pub proof fn law_coarse_cells_are_numbered_row_by_row(t: TwoTierLandmass, i: usize, j: usize)
    requires
        t.wf(),
        i < t.coarse.width,
        j < t.coarse.height,
    ensures
        i == 0 && j == 0 ==> t.number_of(TwoTierCell::Coarse { i, j }) == 0,
        i > 0 ==> t.number_of(TwoTierCell::Coarse { i, j }) == t.number_of(
            TwoTierCell::Coarse { i: (i - 1) as usize, j },
        ) + 1,
        i == 0 && j > 0 ==> t.number_of(TwoTierCell::Coarse { i, j }) == t.number_of(
            TwoTierCell::Coarse { i: (t.coarse.width - 1) as usize, j: (j - 1) as usize },
        ) + 1,
{
    let w = t.coarse.width as int;
    assert((j - 1) * w == j * w - w && 0 * w == 0) by (nonlinear_arith);
}

/// The cells of each patch follow, row by row: the first of a patch follows the last cell of
/// the patch before it, or of the coarse grid.
pub proof fn law_patch_cells_are_numbered_row_by_row(
    t: TwoTierLandmass,
    patch: usize,
    i: usize,
    j: usize,
)
    requires
        t.wf(),
        patch < t.fine@.len(),
        i < t.fine@[patch as int].width,
        j < t.fine@[patch as int].height,
    ensures
        i > 0 ==> t.number_of(TwoTierCell::Fine { patch, i, j }) == t.number_of(
            TwoTierCell::Fine { patch, i: (i - 1) as usize, j },
        ) + 1,
        i == 0 && j > 0 ==> t.number_of(TwoTierCell::Fine { patch, i, j }) == t.number_of(
            TwoTierCell::Fine {
                patch,
                i: (t.fine@[patch as int].width - 1) as usize,
                j: (j - 1) as usize,
            },
        ) + 1,
        i == 0 && j == 0 && patch > 0 ==> t.number_of(TwoTierCell::Fine { patch, i, j })
            == t.number_of(
            TwoTierCell::Fine {
                patch: (patch - 1) as usize,
                i: (t.fine@[patch - 1].width - 1) as usize,
                j: (t.fine@[patch - 1].height - 1) as usize,
            },
        ) + 1,
        i == 0 && j == 0 && patch == 0 ==> t.number_of(TwoTierCell::Fine { patch, i, j })
            == t.number_of(
            TwoTierCell::Coarse {
                i: (t.coarse.width - 1) as usize,
                j: (t.coarse.height - 1) as usize,
            },
        ) + 1,
{
    let w = t.fine@[patch as int].width as int;
    assert(t.fine@[patch as int].wf());
    assert((j - 1) * w == j * w - w && 0 * w == 0) by (nonlinear_arith);
    if patch > 0 {
        let p = t.fine@[patch - 1];
        assert(p.wf());
        assert((p.height - 1) * p.width + (p.width - 1) + 1 == p.width * p.height)
            by (nonlinear_arith);
    }
    let g = t.coarse;
    assert((g.height - 1) * g.width + (g.width - 1) + 1 == g.width * g.height) by (nonlinear_arith);
}

/// The sea of the first patches.
proof fn lemma_sea_before(t: TwoTierLandmass, k: nat)
    requires
        t.wf(),
        k <= t.fine@.len(),
    ensures
        two_tier::sea_before(t.coarse.sea(), t.fine@, k).len() == two_tier::cells_before(
            t.coarse.sdf_m@.len(),
            t.fine@,
            k,
        ),
    decreases k,
{
    if k > 0 {
        lemma_sea_before(t, (k - 1) as nat);
    }
}

/// Later patches change nothing before them.
proof fn lemma_sea_stays(t: TwoTierLandmass, k: nat, n: nat, c: int)
    requires
        t.wf(),
        k <= n <= t.fine@.len(),
        0 <= c < two_tier::cells_before(t.coarse.sdf_m@.len(), t.fine@, k),
    ensures
        two_tier::cells_before(t.coarse.sdf_m@.len(), t.fine@, k) <= two_tier::cells_before(
            t.coarse.sdf_m@.len(),
            t.fine@,
            n,
        ),
        two_tier::sea_before(t.coarse.sea(), t.fine@, n)[c] == two_tier::sea_before(
            t.coarse.sea(),
            t.fine@,
            k,
        )[c],
    decreases n,
{
    if k < n {
        lemma_sea_stays(t, k, (n - 1) as nat, c);
        lemma_sea_before(t, (n - 1) as nat);
    }
}

/// A cell of either tier is sea just if its own distance to the coast is not below zero.
pub proof fn law_cells_are_sea_by_their_own_distance(t: TwoTierLandmass, cell: TwoTierCell)
    requires
        t.wf(),
        t.has(cell),
    ensures
        t.sea()[t.number_of(cell)] <==> match cell {
            TwoTierCell::Coarse { i, j } => (Real32 { bits: 0 }).at_most(
                t.coarse.sdf_m@[j * t.coarse.width + i],
            ),
            TwoTierCell::Fine { patch, i, j } => (Real32 { bits: 0 }).at_most(
                t.fine@[patch as int].sdf_m@[j * t.fine@[patch as int].width + i],
            ),
        },
        t.sea().len() == t.total(),
{
    let n = t.fine@.len();
    lemma_sea_before(t, n);
    match cell {
        TwoTierCell::Coarse { i, j } => {
            places::lemma_cell_place(
                t.coarse.width as int,
                t.coarse.height as int,
                i as int,
                j as int,
            );
            lemma_sea_stays(t, 0, n, t.number_of(cell));
        },
        TwoTierCell::Fine { patch, i, j } => {
            let p = t.fine@[patch as int];
            assert(p.wf());
            places::lemma_cell_place(p.width as int, p.height as int, i as int, j as int);
            lemma_sea_before(t, patch as nat);
            lemma_sea_stays(t, (patch + 1) as nat, n, t.number_of(cell));
            let before = two_tier::sea_before(t.coarse.sea(), t.fine@, patch as nat);
            assert(two_tier::sea_before(t.coarse.sea(), t.fine@, (patch + 1) as nat) =~= before
                + p.sea());
        },
    }
}

/// The list of the first directions.
proof fn lemma_located_in<L: Fn(usize, i32, i32) -> Option<usize>>(
    locate: L,
    c: usize,
    k: nat,
    n: usize,
)
    requires
        k <= 8,
    ensures
        two_tier::located_in(locate, c, k).contains(n) <==> exists|d: int|
            0 <= d < k && #[trigger] two_tier::located(locate, c, d) == Some(n),
    decreases k,
{
    let list = two_tier::located_in(locate, c, k);
    if k > 0 {
        let before = two_tier::located_in(locate, c, (k - 1) as nat);
        lemma_located_in(locate, c, (k - 1) as nat, n);
        if list.contains(n) {
            let m = choose|m: int| 0 <= m < list.len() && list[m] == n;
            if m < before.len() {
                assert(before[m] == n);
                assert(before.contains(n));
            } else {
                assert(two_tier::located(locate, c, k - 1) == Some(n));
            }
        }
        if exists|d: int| 0 <= d < k && #[trigger] two_tier::located(locate, c, d) == Some(n) {
            let d = choose|d: int| 0 <= d < k && #[trigger] two_tier::located(locate, c, d) == Some(n);
            if d < k - 1 {
                assert(before.contains(n));
                let m = choose|m: int| 0 <= m < before.len() && before[m] == n;
                assert(list[m] == n);
            } else {
                assert(list[before.len() as int] == n);
            }
        }
    }
}

/// A cell leads to what is located one step away from it in any of the eight directions, and
/// to nothing else.
pub proof fn law_cells_lead_all_eight_ways<L: Fn(usize, i32, i32) -> Option<usize>>(
    locate: L,
    cells: int,
    c: usize,
    n: usize,
)
    requires
        two_tier::locates(locate, cells),
    ensures
        two_tier::round(locate)(c).contains(n) <==> exists|di: i32, dj: i32|
            {
                &&& -1 <= di <= 1
                &&& -1 <= dj <= 1
                &&& !(di == 0 && dj == 0)
                &&& #[trigger] call_ensures(locate, (c, di, dj), Some(n))
            },
{
    lemma_located_in(locate, c, 8, n);
    if two_tier::round(locate)(c).contains(n) {
        let d = choose|d: int| 0 <= d < 8 && #[trigger] two_tier::located(locate, c, d) == Some(n);
        let (di, dj) = two_tier::direction(d);
        assert(call_ensures(locate, (c, di, dj), Some(n)));
    }
    if exists|di: i32, dj: i32|
        {
            &&& -1 <= di <= 1
            &&& -1 <= dj <= 1
            &&& !(di == 0 && dj == 0)
            &&& #[trigger] call_ensures(locate, (c, di, dj), Some(n))
        } {
        let (di, dj) = choose|di: i32, dj: i32|
            {
                &&& -1 <= di <= 1
                &&& -1 <= dj <= 1
                &&& !(di == 0 && dj == 0)
                &&& #[trigger] call_ensures(locate, (c, di, dj), Some(n))
            };
        let k = (dj + 1) * 3 + (di + 1);
        let d = if k < 4 {
            k
        } else {
            k - 1
        };
        assert(two_tier::direction(d) == (di, dj));
        assert(two_tier::located(locate, c, d) == Some(n));
    }
}

/// Whether a point lies within an area or on its edge.
pub open spec fn within(b: LonLatBbox, lon: Real, lat: Real) -> bool {
    b.lon_min.at_most(lon) && lon.at_most(b.lon_max) && b.lat_min.at_most(lat) && lat.at_most(
        b.lat_max,
    )
}

/// Two areas share a part just if a point lies in both.
pub proof fn law_areas_share_a_point(a: LonLatBbox, b: LonLatBbox)
    requires
        a.lon_min.at_most(a.lon_max) && a.lat_min.at_most(a.lat_max),
        b.lon_min.at_most(b.lon_max) && b.lat_min.at_most(b.lat_max),
    ensures
        patches::overlap(a, b) <==> exists|lon: Real, lat: Real| #[trigger]
            within(a, lon, lat) && #[trigger] within(b, lon, lat),
{
    if patches::overlap(a, b) {
        let lon = if a.lon_min.below(b.lon_min) {
            b.lon_min
        } else {
            a.lon_min
        };
        let lat = if a.lat_min.below(b.lat_min) {
            b.lat_min
        } else {
            a.lat_min
        };
        assert(within(a, lon, lat) && within(b, lon, lat));
    }
}

/// One area covers another just if every point of the other lies in it.
pub proof fn law_covers_every_point(outer: LonLatBbox, inner: LonLatBbox)
    requires
        inner.lon_min.at_most(inner.lon_max) && inner.lat_min.at_most(inner.lat_max),
    ensures
        patches::covers(outer, inner) <==> forall|lon: Real, lat: Real| #[trigger]
            within(inner, lon, lat) ==> within(outer, lon, lat),
{
    if forall|lon: Real, lat: Real| #[trigger]
        within(inner, lon, lat) ==> within(outer, lon, lat) {
        assert(within(inner, inner.lon_min, inner.lat_min));
        assert(within(inner, inner.lon_max, inner.lat_max));
        assert(within(outer, inner.lon_min, inner.lat_min));
        assert(within(outer, inner.lon_max, inner.lat_max));
    }
}

/// The area round two others holds the points of both, and every area that holds those holds
/// all of it.
pub proof fn law_hull_is_the_least_area(a: LonLatBbox, b: LonLatBbox, c: LonLatBbox, lon: Real, lat: Real)
    requires
        a.lon_min.at_most(a.lon_max) && a.lat_min.at_most(a.lat_max),
        b.lon_min.at_most(b.lon_max) && b.lat_min.at_most(b.lat_max),
    ensures
        within(a, lon, lat) || within(b, lon, lat) ==> within(patches::hull(a, b), lon, lat),
        (forall|x: Real, y: Real| #[trigger] within(a, x, y) ==> within(c, x, y)) && (forall|
            x: Real,
            y: Real,
        | #[trigger]
            within(b, x, y) ==> within(c, x, y)) && within(patches::hull(a, b), lon, lat) ==> within(
            c,
            lon,
            lat,
        ),
{
    assert(within(a, a.lon_min, a.lat_min));
    assert(within(a, a.lon_max, a.lat_max));
    assert(within(b, b.lon_min, b.lat_min));
    assert(within(b, b.lon_max, b.lat_max));
}

/// The first two areas that share a part become one, in the place of the first; the last area
/// moves to the place of the second.
pub proof fn law_areas_are_joined_in_place(s: Seq<LonLatBbox>, i: int, j: int, k: int)
    requires
        0 <= i < j < s.len(),
        0 <= k < s.len() - 1,
    ensures
        patches::fold(s, i, j).len() == s.len() - 1,
        patches::fold(s, i, j)[k] == (if k == i {
            patches::hull(s[i], s[j])
        } else if k == j {
            s[s.len() - 1]
        } else {
            s[k]
        }),
        patches::first_to_share(s, i, j) ==> patches::folded(s) == patches::folded(
            patches::fold(s, i, j),
        ),
{
    if patches::first_to_share(s, i, j) {
        let (a, b) = choose|a: int, b: int| patches::first_to_share(s, a, b);
        assert(patches::first_to_share(s, a, b));
        if a < i || (a == i && b < j) {
            assert(!patches::overlap(s[a], s[b]));
        } else if i < a || (a == i && j < b) {
            assert(!patches::overlap(s[i], s[j]));
        }
        assert(a == i && b == j);
    }
}

/// Areas of which no two share a part stay as they are.
pub proof fn law_areas_apart_stay(s: Seq<LonLatBbox>)
    requires
        forall|i: int, j: int|
            0 <= i < j < s.len() ==> !patches::overlap(#[trigger] s[i], #[trigger] s[j]),
    ensures
        patches::folded(s) == s,
{
    let (a, b) = choose|a: int, b: int| patches::first_to_share(s, a, b);
    if patches::first_to_share(s, a, b) {
        assert(!patches::overlap(s[a], s[b]));
    }
}

/// What is located in the eight directions is listed from the south-west on, along each row to
/// the east and then the row to the north.
pub proof fn law_directions_run_east_and_then_north<L: Fn(usize, i32, i32) -> Option<usize>>(
    locate: L,
    cells: int,
    c: usize,
    k: int,
    r: Option<usize>,
)
    requires
        two_tier::locates(locate, cells),
        0 <= k < 8,
        ({
            let n: int = if k < 4 {
                k
            } else {
                k + 1
            };
            call_ensures(locate, (c, (n % 3 - 1) as i32, (n / 3 - 1) as i32), r)
        }),
    ensures
        two_tier::located_in(locate, c, (k + 1) as nat) == (match r {
            Some(n) => two_tier::located_in(locate, c, k as nat).push(n),
            None => two_tier::located_in(locate, c, k as nat),
        }),
        two_tier::located_in(locate, c, 0).len() == 0,
        two_tier::round(locate)(c) == two_tier::located_in(locate, c, 8),
{
    let n: int = if k < 4 {
        k
    } else {
        k + 1
    };
    assert(two_tier::direction(k) == ((n % 3 - 1) as i32, (n / 3 - 1) as i32));
    assert(two_tier::located(locate, c, k) == r);
}

/// An area is covered by others just if it lies in one of them on all four sides.
pub proof fn law_covered_areas_lie_in_one(outer: Seq<LonLatBbox>, inner: LonLatBbox)
    ensures
        patches::covered(outer, inner) <==> exists|m: int|
            #![trigger outer[m]]
            0 <= m < outer.len() && outer[m].lon_min.at_most(inner.lon_min) && inner.lon_max.at_most(
                outer[m].lon_max,
            ) && outer[m].lat_min.at_most(inner.lat_min) && inner.lat_max.at_most(outer[m].lat_max),
{
}

/// Areas are all covered by others only where each of them is.
pub proof fn law_all_areas_are_covered(outer: Seq<LonLatBbox>, inner: Seq<LonLatBbox>, k: int)
    requires
        patches::all_covered(outer, inner),
        0 <= k < inner.len(),
    ensures
        patches::covered(outer, inner[k]),
{
}

} // verus!
