//! Columns and rows of the cells of a grid.
//!
//! Cells are numbered row by row: cell `c` of a grid `w` cells wide stands in column
//! `c % w` of row `c / w`.
use vstd::prelude::*;

verus! {

/// Whether `i` and `j` are a column and a row of the grid.
pub open spec fn in_grid(w: int, h: int, i: int, j: int) -> bool {
    0 <= i < w && 0 <= j < h
}

/// The column and row of the cell numbered `j * w + i`.
pub proof fn lemma_cell_place(w: int, h: int, i: int, j: int)
    requires
        in_grid(w, h, i, j),
    ensures
        (j * w + i) % w == i,
        (j * w + i) / w == j,
        0 <= j * w + i < w * h,
        j > 0 ==> j * w + i >= w,
        j < h - 1 ==> j * w + i + w < w * h,
        j > 0 ==> (j - 1) * w + i == j * w + i - w,
        (j + 1) * w + i == j * w + i + w,
        j * w >= 0,
{
    assert(j * w >= 0 && w * h - j * w >= w && (j > 0 ==> j * w >= w) && (j < h - 1 ==> w * h - j * w >= 2 * w)
        && (j - 1) * w == j * w - w && (j + 1) * w == j * w + w) by (nonlinear_arith)
        requires
            0 <= j < h,
            w > 0,
    ;
    vstd::arithmetic::div_mod::lemma_fundamental_div_mod_converse(j * w + i, w, j, i);
}

/// Whether there is a row before or after row `j`, by the cells before and after it.
pub proof fn lemma_row_bounds(w: int, h: int, i: int, j: int)
    requires
        in_grid(w, h, i, j),
    ensures
        j * w >= w <==> j > 0,
        w * h - j * w > w <==> j + 1 < h,
{
    assert((j * w >= w <==> j > 0) && (w * h - j * w > w <==> j + 1 < h)) by (nonlinear_arith)
        requires
            0 <= j < h,
            w > 0,
    ;
}

/// A row ends within the grid, and so does the next one where there is one.
pub proof fn lemma_row_end(w: int, h: int, i: int, j: int)
    requires
        in_grid(w, h, i, j),
    ensures
        0 <= j * w,
        j * w + w <= w * h,
        j + 1 < h ==> j * w + 2 * w <= w * h,
{
    assert(0 <= j * w && j * w + w <= w * h && (j + 1 < h ==> j * w + 2 * w <= w * h))
        by (nonlinear_arith)
        requires
            0 <= j < h,
            w > 0,
    ;
}

/// A cell has a column and a row.
pub proof fn lemma_place_of_cell(w: int, h: int, c: int)
    requires
        0 <= c < w * h,
        w > 0,
    ensures
        in_grid(w, h, c % w, c / w),
        c == (c / w) * w + c % w,
{
    vstd::arithmetic::div_mod::lemma_fundamental_div_mod(c, w);
    vstd::arithmetic::div_mod::lemma_mod_bound(c, w);
    let j = c / w;
    let i = c % w;
    assert(0 <= j < h && w * j == j * w) by (nonlinear_arith)
        requires
            0 <= w * j + i < w * h,
            0 <= i < w,
            w > 0,
    ;
}

} // verus!
