//! Wind fields as pictures.
use crate::bytes;
use crate::given;
use crate::number::Real32;
use crate::wind_map::layout::GridLayout;
use crate::wind_map::{WeatherRow, WindSample};
use vstd::prelude::*;

verus! {

/// The cell that a pixel shows. Cells are stored column by column from the south,
/// pixels row by row from the north.
pub open spec fn cell_of_pixel(nx: int, ny: int, p: int) -> int {
    p % nx * ny + (ny - 1 - p / nx)
}

/// The pixel that shows a cell.
pub open spec fn pixel_of_cell(nx: int, ny: int, c: int) -> int {
    (ny - 1 - c % ny) * nx + c / ny
}

/// A number in a product apart into quotient and remainder, and together again.
proof fn lemma_split(a: int, b: int, n: int)
    requires
        0 <= b < n,
    ensures
        (a * n + b) / n == a,
        (a * n + b) % n == b,
{
    assert((a * n + b) / n == a && (a * n + b) % n == b) by (nonlinear_arith)
        requires
            0 <= b < n,
    ;
}

/// Quotients and remainders of numbers below a product.
proof fn lemma_parts(v: int, m: int, n: int)
    requires
        0 <= v < m * n,
        n > 0,
    ensures
        0 <= v / n < m,
        0 <= v % n < n,
        v == v / n * n + v % n,
{
    assert(0 <= v / n < m && 0 <= v % n < n && v == v / n * n + v % n) by (nonlinear_arith)
        requires
            0 <= v < m * n,
            n > 0,
    ;
}

/// A number put together out of parts lies below their product.
proof fn lemma_joined(a: int, b: int, m: int, n: int)
    requires
        0 <= a < m,
        0 <= b < n,
    ensures
        0 <= a * n + b < m * n,
        0 <= a * n,
{
    assert(0 <= a * n && a * n + n <= m * n) by (nonlinear_arith)
        requires
            0 <= a < m,
            0 < n,
    ;
}

/// Each cell is shown by one pixel, and each pixel shows one cell.
pub proof fn law_pixels_and_cells(nx: int, ny: int, k: int)
    requires
        nx > 0,
        ny > 0,
        0 <= k < nx * ny,
    ensures
        0 <= cell_of_pixel(nx, ny, k) < nx * ny,
        0 <= pixel_of_cell(nx, ny, k) < nx * ny,
        pixel_of_cell(nx, ny, cell_of_pixel(nx, ny, k)) == k,
        cell_of_pixel(nx, ny, pixel_of_cell(nx, ny, k)) == k,
{
    assert(nx * ny == ny * nx) by (nonlinear_arith);
    lemma_parts(k, ny, nx);
    let i = k % nx;
    let j = ny - 1 - k / nx;
    lemma_joined(i, j, nx, ny);
    lemma_split(i, j, ny);
    lemma_parts(k, nx, ny);
    let s = ny - 1 - k % ny;
    let t = k / ny;
    lemma_joined(s, t, ny, nx);
    lemma_split(s, t, nx);
}

/// Whether two planes show rows.
pub open spec fn shows<P: Fn(WindSample) -> (u16, u16)>(
    y: Seq<u16>,
    cb: Seq<u16>,
    rows: Seq<WeatherRow>,
    nx: int,
    ny: int,
    pixels: P,
) -> bool {
    &&& y.len() == nx * ny
    &&& cb.len() == nx * ny
    &&& forall|p: int|
        0 <= p < nx * ny ==> (#[trigger] y[p], cb[p]) == given::gives1(
            pixels,
            rows[cell_of_pixel(nx, ny, p)].sample,
        )
}

/// The planes that show rows. `pixels` tells the pixels of a wind.
pub fn pack_into_planes<P: Fn(WindSample) -> (u16, u16)>(
    rows: &Vec<WeatherRow>,
    nx: usize,
    ny: usize,
    pixels: &P,
) -> (r: (Vec<u16>, Vec<u16>))
    requires
        nx > 0,
        ny > 0,
        rows@.len() == nx * ny,
        given::settled1(*pixels),
    ensures
        shows(r.0@, r.1@, rows@, nx as int, ny as int, *pixels),
{
    let len: usize = rows.len();
    let mut y: Vec<u16> = Vec::new();
    let mut cb: Vec<u16> = Vec::new();
    let mut p: usize = 0;
    while p < len
        invariant
            len == rows@.len() == nx * ny,
            nx > 0,
            ny > 0,
            p <= len,
            given::settled1(*pixels),
            y@.len() == p,
            cb@.len() == p,
            forall|q: int|
                0 <= q < p ==> (#[trigger] y@[q], cb@[q]) == given::gives1(
                    *pixels,
                    rows@[cell_of_pixel(nx as int, ny as int, q)].sample,
                ),
        decreases len - p,
    {
        let i: usize = p % nx;
        proof {
            law_pixels_and_cells(nx as int, ny as int, p as int);
            assert(nx * ny == ny * nx) by (nonlinear_arith);
            lemma_parts(p as int, ny as int, nx as int);
            lemma_joined(i as int, ny - 1 - p as int / nx as int, nx as int, ny as int);
        }
        let j: usize = ny - 1 - p / nx;
        let (u, v): (u16, u16) = pixels(rows[i * ny + j].sample);
        y.push(u);
        cb.push(v);
        p += 1;
    }
    (y, cb)
}

/// Whether rows are those that two planes show on a grid. `lon_of` and `lat_of` tell
/// the longitude of a column and the latitude of a row, `wind_of` the wind of pixels.
pub open spec fn shown<
    X: Fn(usize) -> Real32,
    Y: Fn(usize) -> Real32,
    W: Fn(u16, u16) -> WindSample,
>(
    rows: Seq<WeatherRow>,
    y: Seq<u16>,
    cb: Seq<u16>,
    nx: int,
    ny: int,
    lon_of: X,
    lat_of: Y,
    wind_of: W,
) -> bool {
    &&& rows.len() == nx * ny
    &&& forall|c: int|
        0 <= c < nx * ny ==> {
            let p = pixel_of_cell(nx, ny, c);
            &&& (#[trigger] rows[c]).lon == given::gives1(lon_of, (c / ny) as usize)
            &&& rows[c].lat == given::gives1(lat_of, (c % ny) as usize)
            &&& rows[c].sample == given::gives2(wind_of, y[p], cb[p])
        }
}

/// The rows that two planes show on a grid.
pub fn unpack_planes<
    X: Fn(usize) -> Real32,
    Y: Fn(usize) -> Real32,
    W: Fn(u16, u16) -> WindSample,
>(
    y: &Vec<u16>,
    cb: &Vec<u16>,
    layout: &GridLayout,
    lon_of: &X,
    lat_of: &Y,
    wind_of: &W,
) -> (rows: Vec<WeatherRow>)
    requires
        layout.nx > 0,
        layout.ny > 0,
        y@.len() == layout.nx * layout.ny,
        cb@.len() == y@.len(),
        given::settled1(*lon_of),
        given::settled1(*lat_of),
        given::settled2(*wind_of),
    ensures
        shown(rows@, y@, cb@, layout.nx as int, layout.ny as int, *lon_of, *lat_of, *wind_of),
{
    let nx: usize = layout.nx;
    let ny: usize = layout.ny;
    let len: usize = y.len();
    let mut rows: Vec<WeatherRow> = Vec::new();
    let mut c: usize = 0;
    while c < len
        invariant
            len == y@.len() == nx * ny,
            cb@.len() == len,
            nx > 0,
            ny > 0,
            c <= len,
            given::settled1(*lon_of),
            given::settled1(*lat_of),
            given::settled2(*wind_of),
            rows@.len() == c,
            forall|d: int|
                0 <= d < c ==> {
                    let p = pixel_of_cell(nx as int, ny as int, d);
                    &&& (#[trigger] rows@[d]).lon == given::gives1(*lon_of, (d / ny as int) as usize)
                    &&& rows@[d].lat == given::gives1(*lat_of, (d % ny as int) as usize)
                    &&& rows@[d].sample == given::gives2(*wind_of, y@[p], cb@[p])
                },
        decreases len - c,
    {
        let i: usize = c / ny;
        let j: usize = c % ny;
        proof {
            law_pixels_and_cells(nx as int, ny as int, c as int);
            lemma_parts(c as int, nx as int, ny as int);
            assert(nx * ny == ny * nx) by (nonlinear_arith);
            lemma_joined(ny - 1 - j, i as int, ny as int, nx as int);
        }
        let p: usize = (ny - 1 - j) * nx + i;
        rows.push(WeatherRow { lon: lon_of(i), lat: lat_of(j), sample: wind_of(y[p], cb[p]) });
        c += 1;
    }
    rows
}

/// Winds come back out of the pixels that show them: the wind that is read for a cell
/// is the one of the pixels of its own wind.
pub proof fn law_winds_come_back<
    P: Fn(WindSample) -> (u16, u16),
    X: Fn(usize) -> Real32,
    Y: Fn(usize) -> Real32,
    W: Fn(u16, u16) -> WindSample,
>(
    rows: Seq<WeatherRow>,
    y: Seq<u16>,
    cb: Seq<u16>,
    back: Seq<WeatherRow>,
    nx: int,
    ny: int,
    pixels: P,
    lon_of: X,
    lat_of: Y,
    wind_of: W,
    c: int,
)
    requires
        nx > 0,
        ny > 0,
        shows(y, cb, rows, nx, ny, pixels),
        shown(back, y, cb, nx, ny, lon_of, lat_of, wind_of),
        0 <= c < nx * ny,
    ensures
        ({
            let (u, v) = given::gives1(pixels, rows[c].sample);
            back[c].sample == given::gives2(wind_of, u, v)
        }),
{
    law_pixels_and_cells(nx, ny, c);
    let p = pixel_of_cell(nx, ny, c);
    assert((y[p], cb[p]) == given::gives1(pixels, rows[c].sample));
    assert(back[c].sample == given::gives2(wind_of, y[p], cb[p]));
}

/// The bytes of a plane, two for each pixel, the lower first.
pub open spec fn plane_bytes(plane: Seq<u16>) -> Seq<u8>
    decreases plane.len(),
{
    if plane.len() == 0 {
        Seq::empty()
    } else {
        plane_bytes(plane.drop_last()) + bytes::le_bytes(plane.last() as nat, 2)
    }
}

/// The bytes of a plane are twice as many as its pixels, and those of small pixels
/// are small.
pub proof fn lemma_plane_bytes(plane: Seq<u16>)
    ensures
        plane_bytes(plane).len() == 2 * plane.len(),
        (forall|k: int| 0 <= k < plane.len() ==> plane[k] <= 1023) ==> (forall|k: int|
            0 <= k && 2 * k + 1 < plane_bytes(plane).len() ==> #[trigger] plane_bytes(plane)[2 * k + 1]
                < 4),
    decreases plane.len(),
{
    if plane.len() > 0 {
        let front = plane.drop_last();
        lemma_plane_bytes(front);
        let v = plane.last() as nat;
        bytes::lemma_le_bytes_len(v, 2);
        let tail = bytes::le_bytes(v, 2);
        assert(tail[1] == (v / 256 % 256) as u8) by {
            reveal_with_fuel(bytes::le_bytes, 3);
            assert(bytes::le_bytes(v / 256, 1)[0] == (v / 256 % 256) as u8);
        }
        let all = plane_bytes(plane);
        if forall|k: int| 0 <= k < plane.len() ==> plane[k] <= 1023 {
            assert forall|k: int| 0 <= k < front.len() implies front[k] <= 1023 by {
                assert(front[k] == plane[k]);
            }
            assert(plane[plane.len() - 1] <= 1023);
            assert forall|k: int| 0 <= k && 2 * k + 1 < all.len() implies #[trigger] all[2 * k + 1] < 4 by {
                if 2 * k + 1 < plane_bytes(front).len() {
                    assert(all[2 * k + 1] == plane_bytes(front)[2 * k + 1]);
                } else {
                    assert(all[2 * k + 1] == tail[1]);
                }
            }
        }
    }
}

/// The bytes of a plane.
pub fn bytes_of_plane(plane: &Vec<u16>) -> (out: Vec<u8>)
    ensures
        out@ == plane_bytes(plane@),
{
    let mut out: Vec<u8> = Vec::new();
    let mut k: usize = 0;
    assert(out@ =~= plane_bytes(plane@.take(0)));
    while k < plane.len()
        invariant
            k <= plane@.len(),
            out@ == plane_bytes(plane@.take(k as int)),
        decreases plane@.len() - k,
    {
        bytes::push_le(&mut out, plane[k] as u64, 2);
        proof {
            assert(plane@.take(k + 1).drop_last() =~= plane@.take(k as int));
        }
        k += 1;
    }
    assert(plane@.take(k as int) =~= plane@);
    out
}

} // verus!
