//! Rows on a lattice, for wind maps that are made up.
use crate::given;
use crate::number::Real32;
use crate::wind_map::layout;
use crate::wind_map::{WeatherRow, WindSample};
use vstd::prelude::*;

verus! {

/// The row of column `i` and row `j`: `along` tells where the `k`-th line of the lattice
/// is, in either direction.
pub open spec fn lattice_row<A: Fn(usize) -> Real32>(
    samples: Seq<WindSample>,
    n: int,
    i: int,
    j: int,
    along: A,
) -> WeatherRow {
    WeatherRow {
        lon: given::gives1(along, i as usize),
        lat: given::gives1(along, j as usize),
        sample: samples[i * n + j],
    }
}

/// The rows of a lattice with the given samples, column by column. `along` tells where
/// the `k`-th line of the lattice is, in either direction.
pub fn lattice<A: Fn(usize) -> Real32>(
    columns: usize,
    rows_count: usize,
    samples: &Vec<WindSample>,
    along: &A,
) -> (rows: Vec<WeatherRow>)
    requires
        samples@.len() == columns * rows_count,
        given::settled1(*along),
    ensures
        rows@.len() == samples@.len(),
        forall|i: int, j: int|
            0 <= i < columns && 0 <= j < rows_count ==> #[trigger] rows@[i * rows_count + j]
                == lattice_row(samples@, rows_count as int, i, j, *along),
{
    let ghost n = rows_count as int;
    let mut rows: Vec<WeatherRow> = Vec::new();
    let mut i: usize = 0;
    assert(0 * n == 0) by (nonlinear_arith);
    while i < columns
        invariant
            i <= columns,
            n == rows_count,
            samples@.len() == columns * rows_count,
            given::settled1(*along),
            rows@.len() == i * n,
            forall|a: int, b: int|
                0 <= a < i && 0 <= b < n ==> #[trigger] rows@[a * n + b] == lattice_row(
                    samples@,
                    n,
                    a,
                    b,
                    *along,
                ),
        decreases columns - i,
    {
        let lon: Real32 = along(i);
        let mut j: usize = 0;
        while j < rows_count
            invariant
                i < columns,
                j <= rows_count,
                n == rows_count,
                samples@.len() == columns * rows_count,
                given::settled1(*along),
                lon == given::gives1(*along, i),
                rows@.len() == i * n + j,
                forall|a: int, b: int|
                    0 <= a && 0 <= b < n && (a < i || (a == i && b < j)) ==> #[trigger] rows@[a * n
                        + b] == lattice_row(samples@, n, a, b, *along),
            decreases rows_count - j,
        {
            let at: usize = rows.len();
            proof {
                layout::lemma_slot(i as int, j as int, columns as int, n);
            }
            rows.push(WeatherRow { lon, lat: along(j), sample: samples[at] });
            proof {
                assert forall|a: int, b: int|
                    0 <= a && 0 <= b < n && (a < i || (a == i && b < j + 1)) implies #[trigger] rows@[a
                    * n + b] == lattice_row(samples@, n, a, b, *along) by {
                    assert(a < i ==> a * n + n <= i * n) by (nonlinear_arith)
                        requires
                            n >= 0,
                            0 <= a,
                    ;
                }
            }
            j += 1;
        }
        assert((i + 1) * n == i * n + n) by (nonlinear_arith);
        i += 1;
    }
    rows
}

} // verus!
