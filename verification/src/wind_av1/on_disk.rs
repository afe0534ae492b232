//! What stands where in a file, byte by byte.
use crate::baked_codec;
use crate::bytes;
use crate::calendar::UtcTime;
use crate::given;
use crate::number::Real32;
use crate::wind_av1::decoder;
use crate::wind_av1::decoder::DecodeError;
use crate::wind_av1::encoder;
use crate::wind_av1::header;
use crate::wind_av1::header::{FrameOffsets, Header};
use crate::wind_av1::ivf;
use crate::wind_av1::planes;
use crate::wind_av1::rav1d_wrap::{DecodedPicture, DecoderError};
use crate::wind_av1::rav1e_wrap;
use crate::wind_map::baked::{BakedWindMap, Wind};
use crate::wind_map::layout::GridLayout;
use crate::wind_map::{TimedWindMap, WindMap, WindSample};
use vstd::prelude::*;

verus! {

/// The header that is written: `WCAV` and four zeros, the version 2, the first column and row,
/// the steps, the columns and rows, the number of fields and the seconds between them, and
/// the first and the last instant.
pub proof fn law_written_header(
    l: GridLayout,
    frame_count: u32,
    step_seconds: Real32,
    start: i64,
    end: i64,
)
    requires
        l.nx <= u32::MAX,
        l.ny <= u32::MAX,
    ensures
        ({
            let s = header::header_bytes(l, frame_count, step_seconds, start, end);
            &&& s.len() == 60
            &&& s[0] == 0x57 && s[1] == 0x43 && s[2] == 0x41 && s[3] == 0x56
            &&& s[4] == 0 && s[5] == 0 && s[6] == 0 && s[7] == 0
            &&& bytes::word_at(s, 8) == 2
            &&& bytes::word_at(s, 12) == l.origin_x.bits
            &&& bytes::word_at(s, 16) == l.origin_y.bits
            &&& bytes::word_at(s, 20) == l.step_x.bits
            &&& bytes::word_at(s, 24) == l.step_y.bits
            &&& bytes::word_at(s, 28) == l.nx
            &&& bytes::word_at(s, 32) == l.ny
            &&& bytes::word_at(s, 36) == frame_count
            &&& bytes::word_at(s, 40) == step_seconds.bits
            &&& bytes::long_at(s, 44) == (if start >= 0 {
                start as int
            } else {
                0x1_0000_0000_0000_0000 + start
            })
            &&& bytes::long_at(s, 52) == (if end >= 0 {
                end as int
            } else {
                0x1_0000_0000_0000_0000 + end
            })
        }),
{
    let s = header::header_bytes(l, frame_count, step_seconds, start, end);
    let version: u32 = crate::wind_av1::VERSION;
    bytes::lemma_pow256();
    bytes::law_value_of_bytes(version as nat, 4);
    bytes::law_value_of_bytes(l.origin_x.bits as nat, 4);
    bytes::law_value_of_bytes(l.origin_y.bits as nat, 4);
    bytes::law_value_of_bytes(l.step_x.bits as nat, 4);
    bytes::law_value_of_bytes(l.step_y.bits as nat, 4);
    bytes::law_value_of_bytes(l.nx as nat, 4);
    bytes::law_value_of_bytes(l.ny as nat, 4);
    bytes::law_value_of_bytes(frame_count as nat, 4);
    bytes::law_value_of_bytes(step_seconds.bits as nat, 4);
    bytes::law_value_of_bytes(bytes::unsigned_of(start), 8);
    bytes::law_value_of_bytes(bytes::unsigned_of(end), 8);
    assert(s.take(8) =~= crate::wind_av1::MAGIC@);
    assert(s[0] == s.take(8)[0] && s[1] == s.take(8)[1] && s[2] == s.take(8)[2] && s[3] == s.take(
        8,
    )[3] && s[4] == s.take(8)[4] && s[5] == s.take(8)[5] && s[6] == s.take(8)[6] && s[7] == s.take(
        8,
    )[7]);
    assert(s.subrange(8, 12) =~= bytes::le_bytes(version as nat, 4));
    assert(s.subrange(12, 16) =~= bytes::le_bytes(l.origin_x.bits as nat, 4));
    assert(s.subrange(16, 20) =~= bytes::le_bytes(l.origin_y.bits as nat, 4));
    assert(s.subrange(20, 24) =~= bytes::le_bytes(l.step_x.bits as nat, 4));
    assert(s.subrange(24, 28) =~= bytes::le_bytes(l.step_y.bits as nat, 4));
    assert(s.subrange(28, 32) =~= bytes::le_bytes(l.nx as nat, 4));
    assert(s.subrange(32, 36) =~= bytes::le_bytes(l.ny as nat, 4));
    assert(s.subrange(36, 40) =~= bytes::le_bytes(frame_count as nat, 4));
    assert(s.subrange(40, 44) =~= bytes::le_bytes(step_seconds.bits as nat, 4));
    assert(s.subrange(44, 52) =~= bytes::le_bytes(bytes::unsigned_of(start), 8));
    assert(s.subrange(52, 60) =~= bytes::le_bytes(bytes::unsigned_of(end), 8));
    bytes::law_least_byte_comes_first(s, 8);
    bytes::law_least_byte_comes_first(s, 12);
    bytes::law_least_byte_comes_first(s, 16);
    bytes::law_least_byte_comes_first(s, 20);
    bytes::law_least_byte_comes_first(s, 24);
    bytes::law_least_byte_comes_first(s, 28);
    bytes::law_least_byte_comes_first(s, 32);
    bytes::law_least_byte_comes_first(s, 36);
    bytes::law_least_byte_comes_first(s, 40);
    bytes::law_least_byte_comes_first(s, 44);
    bytes::law_least_byte_comes_first(s, 52);
}

/// A time range that is not known is written as the least number twice.
pub proof fn law_unknown_times(range: Option<(UtcTime, UtcTime)>)
    ensures
        match range {
            Some((start, end)) => header::range_seconds(range) == (start.seconds, end.seconds),
            None => header::range_seconds(range) == (
                (-0x8000_0000_0000_0000) as i64,
                (-0x8000_0000_0000_0000) as i64,
            ),
        },
{
}

/// The number with a sign in eight bytes.
pub open spec fn signed_at(s: Seq<u8>, at: int) -> int {
    if bytes::long_at(s, at) < 0x8000_0000_0000_0000 {
        bytes::long_at(s, at)
    } else {
        bytes::long_at(s, at) - 0x1_0000_0000_0000_0000
    }
}

/// What is read from the header of a file of version 1, 2 or 3. Versions from 2 on tell the
/// first and the last instant, and version 3 when each field holds.
pub proof fn law_read_header(file: Seq<u8>, h: Header, k: int)
    requires
        header::has_header(file),
        header::told_by(file, h),
    ensures
        file[0] == 0x57 && file[1] == 0x43 && file[2] == 0x41 && file[3] == 0x56,
        file[4] == 0 && file[5] == 0 && file[6] == 0 && file[7] == 0,
        1 <= bytes::word_at(file, 8) <= 3,
        h.layout.origin_x.bits == bytes::word_at(file, 12),
        h.layout.origin_y.bits == bytes::word_at(file, 16),
        h.layout.step_x.bits == bytes::word_at(file, 20),
        h.layout.step_y.bits == bytes::word_at(file, 24),
        h.layout.nx == bytes::word_at(file, 28) && h.layout.nx >= 2,
        h.layout.ny == bytes::word_at(file, 32) && h.layout.ny >= 2,
        h.frame_count == bytes::word_at(file, 36) && h.frame_count >= 1,
        h.step_seconds.bits == bytes::word_at(file, 40),
        (Real32 { bits: 0 }).below(h.layout.step_x) && h.layout.step_x.finite(),
        (Real32 { bits: 0 }).below(h.layout.step_y) && h.layout.step_y.finite(),
        bytes::word_at(file, 8) == 1 ==> h.time_range is None,
        bytes::word_at(file, 8) >= 2 ==> (h.time_range matches Some((start, end)) ==> start.seconds
            == signed_at(file, 44) && end.seconds == signed_at(file, 52) && start.nanos == 0
            && end.nanos == 0 && start.wf() && end.wf()),
        bytes::word_at(file, 8) >= 2 && h.time_range is None ==> !(-8_334_601_228_800 <= signed_at(
            file,
            44,
        ) <= 8_210_266_876_799 && -8_334_601_228_800 <= signed_at(file, 52) <= 8_210_266_876_799),
        header::header_len(file) == (if bytes::word_at(file, 8) == 1 {
            44
        } else if bytes::word_at(file, 8) == 2 {
            60
        } else {
            60 + 8 * bytes::word_at(file, 36)
        }),
        bytes::word_at(file, 8) < 3 ==> h.frame_offsets is Uniform,
        bytes::word_at(file, 8) == 3 && 0 <= k < bytes::word_at(file, 36) ==> match h.frame_offsets {
            FrameOffsets::Relative(v) => v@.len() == bytes::word_at(file, 36) && v@[k] == signed_at(
                file,
                60 + 8 * k,
            ) - signed_at(file, 60) && signed_at(file, 60 + 8 * k) != -0x8000_0000_0000_0000,
            FrameOffsets::Uniform => exists|m: int|
                0 <= m < bytes::word_at(file, 36) && #[trigger] header::signed_field(file, 60 + 8 * m)
                    == -0x8000_0000_0000_0000,
        },
        bytes::word_at(file, 8) == 3 && 0 <= k < bytes::word_at(file, 36) ==> header::signed_field(
            file,
            60 + 8 * k,
        ) == signed_at(file, 60 + 8 * k),
{
    let t = file.take(8);
    assert(t == crate::wind_av1::MAGIC@);
    assert(file[0] == t[0] && file[1] == t[1] && file[2] == t[2] && file[3] == t[3] && file[4] == t[4]
        && file[5] == t[5] && file[6] == t[6] && file[7] == t[7]);
    bytes::law_least_byte_comes_first(file, 8);
    bytes::law_least_byte_comes_first(file, 12);
    bytes::law_least_byte_comes_first(file, 16);
    bytes::law_least_byte_comes_first(file, 20);
    bytes::law_least_byte_comes_first(file, 24);
    bytes::law_least_byte_comes_first(file, 28);
    bytes::law_least_byte_comes_first(file, 32);
    bytes::law_least_byte_comes_first(file, 36);
    bytes::law_least_byte_comes_first(file, 40);
    bytes::law_least_byte_comes_first(file, 44);
    bytes::law_least_byte_comes_first(file, 52);
    if bytes::word_at(file, 8) == 3 && 0 <= k < bytes::word_at(file, 36) {
        bytes::law_least_byte_comes_first(file, 60);
        bytes::law_least_byte_comes_first(file, 60 + 8 * k);
        match h.frame_offsets {
            FrameOffsets::Relative(v) => {
                assert(v@[k] == header::signed_field(file, 60 + 8 * k) - header::signed_field(file, 60));
            },
            FrameOffsets::Uniform => {},
        }
    }
}

/// The header of the container: `DKIF`, the version 0, its length 32, `AV01`, the size of a
/// picture, the rate, and the number of frames.
pub proof fn law_written_container_header(
    width: u16,
    height: u16,
    fps_num: u32,
    fps_den: u32,
    frame_count: u32,
)
    ensures
        ({
            let s = ivf::header_bytes(width, height, fps_num, fps_den, frame_count);
            &&& s.len() == 32
            &&& s[0] == 0x44 && s[1] == 0x4B && s[2] == 0x49 && s[3] == 0x46
            &&& bytes::short_at(s, 4) == 0
            &&& bytes::short_at(s, 6) == 32
            &&& s[8] == 0x41 && s[9] == 0x56 && s[10] == 0x30 && s[11] == 0x31
            &&& bytes::short_at(s, 12) == width
            &&& bytes::short_at(s, 14) == height
            &&& bytes::word_at(s, 16) == fps_num
            &&& bytes::word_at(s, 20) == fps_den
            &&& bytes::word_at(s, 24) == frame_count
            &&& bytes::word_at(s, 28) == 0
        }),
{
    let s = ivf::header_bytes(width, height, fps_num, fps_den, frame_count);
    bytes::lemma_pow256();
    assert(bytes::pow256(2) == 65_536) by {
        reveal_with_fuel(bytes::pow256, 3);
    }
    bytes::law_value_of_bytes(0, 2);
    bytes::law_value_of_bytes(32, 2);
    bytes::law_value_of_bytes(width as nat, 2);
    bytes::law_value_of_bytes(height as nat, 2);
    bytes::law_value_of_bytes(fps_num as nat, 4);
    bytes::law_value_of_bytes(fps_den as nat, 4);
    bytes::law_value_of_bytes(frame_count as nat, 4);
    bytes::law_value_of_bytes(0, 4);
    let head = s.subrange(0, 4);
    let four = s.subrange(8, 12);
    assert(head =~= ivf::FILE_MAGIC@);
    assert(four =~= ivf::AV1_FOURCC@);
    assert(s[0] == head[0] && s[1] == head[1] && s[2] == head[2] && s[3] == head[3]);
    assert(s[8] == four[0] && s[9] == four[1] && s[10] == four[2] && s[11] == four[3]);
    assert(s.subrange(4, 6) =~= bytes::le_bytes(0, 2));
    assert(s.subrange(6, 8) =~= bytes::le_bytes(32, 2));
    assert(s.subrange(12, 14) =~= bytes::le_bytes(width as nat, 2));
    assert(s.subrange(14, 16) =~= bytes::le_bytes(height as nat, 2));
    assert(s.subrange(16, 20) =~= bytes::le_bytes(fps_num as nat, 4));
    assert(s.subrange(20, 24) =~= bytes::le_bytes(fps_den as nat, 4));
    assert(s.subrange(24, 28) =~= bytes::le_bytes(frame_count as nat, 4));
    assert(s.subrange(28, 32) =~= bytes::le_bytes(0, 4));
    bytes::law_least_byte_comes_first(s, 4);
    bytes::law_least_byte_comes_first(s, 6);
    bytes::law_least_byte_comes_first(s, 12);
    bytes::law_least_byte_comes_first(s, 14);
    bytes::law_least_byte_comes_first(s, 16);
    bytes::law_least_byte_comes_first(s, 20);
    bytes::law_least_byte_comes_first(s, 24);
    bytes::law_least_byte_comes_first(s, 28);
}

/// A frame of the container: the length of its body, its number, and its body.
pub proof fn law_written_frame(body: Seq<u8>, pts: u64)
    requires
        body.len() <= u32::MAX,
    ensures
        ({
            let s = ivf::frame_bytes(body, pts);
            &&& s.len() == 12 + body.len()
            &&& bytes::word_at(s, 0) == body.len()
            &&& bytes::long_at(s, 4) == pts
            &&& s.skip(12) == body
        }),
{
    let s = ivf::frame_bytes(body, pts);
    bytes::lemma_pow256();
    bytes::law_value_of_bytes(body.len(), 4);
    bytes::law_value_of_bytes(pts as nat, 8);
    assert(s.subrange(0, 4) =~= bytes::le_bytes(body.len(), 4));
    assert(s.subrange(4, 12) =~= bytes::le_bytes(pts as nat, 8));
    assert(s.skip(12) =~= body);
    bytes::law_least_byte_comes_first(s, 0);
    bytes::law_least_byte_comes_first(s, 4);
}

/// Frames follow one another, numbered on from the first.
pub proof fn law_frames_are_numbered_on(bodies: Seq<Seq<u8>>, body: Seq<u8>, first: u64)
    ensures
        ivf::frames_bytes(bodies.push(body), first) == ivf::frames_bytes(bodies, first)
            + ivf::frame_bytes(body, (first + bodies.len()) as u64),
        ivf::frames_bytes(Seq::empty(), first).len() == 0,
{
    assert(bodies.push(body).drop_last() =~= bodies);
}

/// The first row of a picture shows the northernmost row of the grid, and each further row the
/// one to the south of it; columns run from west to east.
pub proof fn law_pictures_have_north_up(nx: int, ny: int, column: int, row: int)
    requires
        0 <= column < nx,
        0 <= row < ny,
    ensures
        planes::cell_of_pixel(nx, ny, row * nx + column) == column * ny + (ny - 1 - row),
        planes::pixel_of_cell(nx, ny, column * ny + row) == (ny - 1 - row) * nx + column,
{
    vstd::arithmetic::div_mod::lemma_fundamental_div_mod_converse(
        row * nx + column,
        nx,
        row,
        column,
    );
    vstd::arithmetic::div_mod::lemma_fundamental_div_mod_converse(
        column * ny + row,
        ny,
        column,
        row,
    );
}

/// A pixel takes two bytes, the lower first.
pub proof fn law_pixel_bytes(plane: Seq<u16>, k: int)
    requires
        0 <= k < plane.len(),
    ensures
        planes::plane_bytes(plane).len() == 2 * plane.len(),
        planes::plane_bytes(plane)[2 * k] + 0x100 * planes::plane_bytes(plane)[2 * k + 1] == plane[k],
    decreases plane.len(),
{
    planes::lemma_plane_bytes(plane);
    let front = plane.drop_last();
    planes::lemma_plane_bytes(front);
    let v = plane.last() as nat;
    bytes::lemma_le_bytes_len(v, 2);
    if k < front.len() {
        law_pixel_bytes(front, k);
    } else {
        let tail = bytes::le_bytes(v, 2);
        reveal_with_fuel(bytes::le_bytes, 3);
        assert(tail[0] == (v % 256) as u8);
        assert(bytes::le_bytes(v / 256, 1)[0] == (v / 256 % 256) as u8);
        assert(tail[1] == (v / 256 % 256) as u8);
    }
}

/// A picture sent holds, row by row from the north and from west to east, the eastward wind in
/// its first plane, the northward wind in its second, and 512 in its third.
pub proof fn law_picture_shows_the_field<P: Fn(WindSample) -> (u16, u16)>(
    sent: (Seq<u8>, Seq<u8>, Seq<u8>),
    frame: WindMap,
    l: GridLayout,
    pixels: P,
    column: int,
    row: int,
)
    requires
        encoder::is_picture(sent, frame, l, pixels),
        0 <= column < l.nx,
        0 <= row < l.ny,
    ensures
        ({
            let p = row * l.nx + column;
            let (east, north) = given::gives1(
                pixels,
                frame.rows@[column * l.ny + (l.ny - 1 - row)].sample,
            );
            &&& bytes::short_at(sent.0, 2 * p) == east
            &&& bytes::short_at(sent.1, 2 * p) == north
            &&& bytes::short_at(sent.2, 2 * p) == 512
        }),
{
    let (nx, ny) = (l.nx as int, l.ny as int);
    let (y, cb) = choose|y: Seq<u16>, cb: Seq<u16>|
        {
            &&& #[trigger] planes::shows(y, cb, frame.rows@, nx, ny, pixels)
            &&& sent.0 == planes::plane_bytes(y)
            &&& sent.1 == planes::plane_bytes(cb)
            &&& sent.2 == planes::plane_bytes(
                Seq::new((l.nx * l.ny) as nat, |k: int| crate::wind_av1::CR_SENTINEL),
            )
        };
    let p = row * nx + column;
    assert(0 <= p < nx * ny) by (nonlinear_arith)
        requires
            0 <= column < nx,
            0 <= row < ny,
            p == row * nx + column,
    ;
    law_pictures_have_north_up(nx, ny, column, row);
    law_pixel_bytes(y, p);
    law_pixel_bytes(cb, p);
    law_pixel_bytes(Seq::new((l.nx * l.ny) as nat, |k: int| crate::wind_av1::CR_SENTINEL), p);
    assert((y[p], cb[p]) == given::gives1(
        pixels,
        frame.rows@[planes::cell_of_pixel(nx, ny, p)].sample,
    ));
}

/// A row read from a picture stands at its column's longitude and its row's latitude, and has
/// the wind of the pixel that shows it: in the first row of pixels where it is northernmost.
pub proof fn law_rows_are_read_from_their_pixels<
    X: Fn(usize) -> Real32,
    Y: Fn(usize) -> Real32,
    W: Fn(u16, u16) -> WindSample,
>(
    map: WindMap,
    y: Seq<u16>,
    cb: Seq<u16>,
    nx: int,
    ny: int,
    lon_of: X,
    lat_of: Y,
    wind_of: W,
    i: usize,
    j: usize,
)
    requires
        planes::shown(map.rows@, y, cb, nx, ny, lon_of, lat_of, wind_of),
        i < nx,
        j < ny,
    ensures
        ({
            let row = map.rows@[i * ny + j];
            let p = (ny - 1 - j) * nx + i;
            &&& row.lon == given::gives1(lon_of, i)
            &&& row.lat == given::gives1(lat_of, j)
            &&& row.sample == given::gives2(wind_of, y[p], cb[p])
        }),
{
    let c = i * ny + j;
    law_pictures_have_north_up(nx, ny, i as int, j as int);
    vstd::arithmetic::div_mod::lemma_fundamental_div_mod_converse(c, ny, i as int, j as int);
    assert(0 <= c < nx * ny) by (nonlinear_arith)
        requires
            0 <= i < nx,
            0 <= j < ny,
            c == i * ny + j,
    ;
    assert(map.rows@[c].lon == given::gives1(lon_of, (c / ny) as usize));
}

/// The encoder is made for pictures of the size of the grid, ten bits deep with full colour
/// planes, one field a second, with the quantizer and the speed asked for.
pub proof fn law_encoder_is_set(width: usize, height: usize, quantizer: u8, speed: u8)
    ensures
        ({
            let s = rav1e_wrap::settings(width, height, quantizer, speed);
            &&& s.len() == 9
            &&& s[0] == width && s[1] == height && s[2] == quantizer && s[3] == speed
            &&& s[4] == 10 && s[5] == 444
        }),
{
}

/// The header of resampled wind: `WBAKED01`, the version 1, the cells and times, the first
/// column and row, the step, the seconds between times, and the scale of coordinates.
pub proof fn law_written_baked_header(m: BakedWindMap)
    ensures
        ({
            let s = baked_codec::header_bytes(m);
            &&& s.len() == 76
            &&& s[0] == 0x57 && s[1] == 0x42 && s[2] == 0x41 && s[3] == 0x4B
            &&& s[4] == 0x45 && s[5] == 0x44 && s[6] == 0x30 && s[7] == 0x31
            &&& bytes::word_at(s, 8) == 1
            &&& bytes::long_at(s, 12) == m.nx
            &&& bytes::long_at(s, 20) == m.ny
            &&& bytes::long_at(s, 28) == m.nt
            &&& bytes::long_at(s, 36) == m.x_min.bits
            &&& bytes::long_at(s, 44) == m.y_min.bits
            &&& bytes::long_at(s, 52) == m.step.bits
            &&& bytes::long_at(s, 60) == m.t_step_seconds.bits
            &&& bytes::long_at(s, 68) == m.coord_scale.bits
        }),
{
    let s = baked_codec::header_bytes(m);
    let version: u32 = baked_codec::VERSION;
    bytes::lemma_pow256();
    bytes::law_value_of_bytes(version as nat, 4);
    bytes::law_value_of_bytes(m.nx as nat, 8);
    bytes::law_value_of_bytes(m.ny as nat, 8);
    bytes::law_value_of_bytes(m.nt as nat, 8);
    bytes::law_value_of_bytes(m.x_min.bits as nat, 8);
    bytes::law_value_of_bytes(m.y_min.bits as nat, 8);
    bytes::law_value_of_bytes(m.step.bits as nat, 8);
    bytes::law_value_of_bytes(m.t_step_seconds.bits as nat, 8);
    bytes::law_value_of_bytes(m.coord_scale.bits as nat, 8);
    let t = s.take(8);
    assert(t =~= baked_codec::MAGIC@);
    assert(s[0] == t[0] && s[1] == t[1] && s[2] == t[2] && s[3] == t[3] && s[4] == t[4] && s[5] == t[5]
        && s[6] == t[6] && s[7] == t[7]);
    assert(s.subrange(8, 12) =~= bytes::le_bytes(version as nat, 4));
    assert(s.subrange(12, 20) =~= bytes::le_bytes(m.nx as nat, 8));
    assert(s.subrange(20, 28) =~= bytes::le_bytes(m.ny as nat, 8));
    assert(s.subrange(28, 36) =~= bytes::le_bytes(m.nt as nat, 8));
    assert(s.subrange(36, 44) =~= bytes::le_bytes(m.x_min.bits as nat, 8));
    assert(s.subrange(44, 52) =~= bytes::le_bytes(m.y_min.bits as nat, 8));
    assert(s.subrange(52, 60) =~= bytes::le_bytes(m.step.bits as nat, 8));
    assert(s.subrange(60, 68) =~= bytes::le_bytes(m.t_step_seconds.bits as nat, 8));
    assert(s.subrange(68, 76) =~= bytes::le_bytes(m.coord_scale.bits as nat, 8));
    bytes::law_least_byte_comes_first(s, 8);
    bytes::law_least_byte_comes_first(s, 12);
    bytes::law_least_byte_comes_first(s, 20);
    bytes::law_least_byte_comes_first(s, 28);
    bytes::law_least_byte_comes_first(s, 36);
    bytes::law_least_byte_comes_first(s, 44);
    bytes::law_least_byte_comes_first(s, 52);
    bytes::law_least_byte_comes_first(s, 60);
    bytes::law_least_byte_comes_first(s, 68);
}

/// A resampled wind takes sixteen bytes, its eastward part first.
pub proof fn law_baked_wind_bytes(grid: Seq<Wind>, k: int)
    requires
        0 <= k < grid.len(),
    ensures
        baked_codec::grid_bytes(grid).len() == 16 * grid.len(),
        bytes::long_at(baked_codec::grid_bytes(grid), 16 * k) == grid[k].east_mps.bits,
        bytes::long_at(baked_codec::grid_bytes(grid), 16 * k + 8) == grid[k].north_mps.bits,
    decreases grid.len(),
{
    let s = baked_codec::grid_bytes(grid);
    let front = grid.drop_last();
    let w = grid.last();
    bytes::lemma_pow256();
    bytes::law_value_of_bytes(w.east_mps.bits as nat, 8);
    bytes::law_value_of_bytes(w.north_mps.bits as nat, 8);
    if front.len() > 0 {
        if k < front.len() {
            law_baked_wind_bytes(front, k);
        } else {
            law_baked_wind_bytes(front, 0);
        }
    }
    if k == front.len() {
        assert(s.subrange(16 * k, 16 * k + 8) =~= bytes::le_bytes(w.east_mps.bits as nat, 8));
        assert(s.subrange(16 * k + 8, 16 * k + 16) =~= bytes::le_bytes(w.north_mps.bits as nat, 8));
        bytes::law_least_byte_comes_first(s, 16 * k);
        bytes::law_least_byte_comes_first(s, 16 * k + 8);
    }
}

/// A file is its header, the header of the container for pictures of the size of the grid, one a
/// second, and the packets, numbered from 0 on.
pub proof fn law_written_file(l: GridLayout, map: TimedWindMap, packets: Seq<Seq<u8>>)
    requires
        l.nx <= 65_535,
        l.ny <= 65_535,
        map.frames@.len() <= u32::MAX,
    ensures
        ({
            let s = encoder::file_of(l, map, packets);
            let (start, end) = match map.time_range {
                Some((start, end)) => (start.seconds, end.seconds),
                None => ((-0x8000_0000_0000_0000) as i64, (-0x8000_0000_0000_0000) as i64),
            };
            &&& s.take(60) == header::header_bytes(
                l,
                map.frames@.len() as u32,
                map.step_seconds,
                start,
                end,
            )
            &&& s.len() >= 92
            &&& s[60] == 0x44 && s[61] == 0x4B && s[62] == 0x49 && s[63] == 0x46
            &&& bytes::short_at(s, 72) == l.nx
            &&& bytes::short_at(s, 74) == l.ny
            &&& bytes::word_at(s, 76) == 1
            &&& bytes::word_at(s, 80) == 1
            &&& bytes::word_at(s, 84) == map.frames@.len()
            &&& s.skip(92) == ivf::frames_bytes(packets, 0)
        }),
{
    let s = encoder::file_of(l, map, packets);
    let (start, end) = header::range_seconds(map.time_range);
    let count = map.frames@.len() as u32;
    let h = header::header_bytes(l, count, map.step_seconds, start, end);
    let c = ivf::header_bytes(l.nx as u16, l.ny as u16, 1, 1, count);
    law_written_header(l, count, map.step_seconds, start, end);
    law_written_container_header(l.nx as u16, l.ny as u16, 1, 1, count);
    lemma_two_heads(h, c, ivf::frames_bytes(packets, 0));
}

/// What stands where behind two heads.
proof fn lemma_two_heads(h: Seq<u8>, c: Seq<u8>, rest: Seq<u8>)
    requires
        h.len() == 60,
        c.len() == 32,
    ensures
        ({
            let s = h + c + rest;
            &&& s.len() >= 92
            &&& s.take(60) == h
            &&& s.skip(92) == rest
            &&& s[60] == c[0] && s[61] == c[1] && s[62] == c[2] && s[63] == c[3]
            &&& bytes::short_at(s, 72) == bytes::short_at(c, 12)
            &&& bytes::short_at(s, 74) == bytes::short_at(c, 14)
            &&& bytes::word_at(s, 76) == bytes::word_at(c, 16)
            &&& bytes::word_at(s, 80) == bytes::word_at(c, 20)
            &&& bytes::word_at(s, 84) == bytes::word_at(c, 24)
        }),
{
    let s = h + c + rest;
    assert(s.take(60) =~= h);
    assert(s.skip(92) =~= rest);
}

/// Of the pictures sent to an encoder each shows the field of its number.
pub proof fn law_pictures_follow_the_fields<P: Fn(WindSample) -> (u16, u16)>(
    file: Seq<u8>,
    map: TimedWindMap,
    params: encoder::EncodeParams,
    pixels: P,
    made: rav1e_wrap::Av1Encoder,
    k: int,
    column: int,
    row: int,
)
    requires
        encoder::encodes(file, map, params, pixels, made),
        map.frames@.len() > 0,
        map.frames@[0].layout is Some,
        0 <= k < map.frames@.len(),
        0 <= column < map.frames@[0].layout->Some_0.nx,
        0 <= row < map.frames@[0].layout->Some_0.ny,
    ensures
        ({
            let l = map.frames@[0].layout->Some_0;
            let sent = rav1e_wrap::sent_to(made);
            let p = row * l.nx + column;
            let (east, north) = given::gives1(
                pixels,
                map.frames@[k].rows@[column * l.ny + (l.ny - 1 - row)].sample,
            );
            &&& sent.len() == map.frames@.len()
            &&& bytes::short_at(sent[k].0, 2 * p) == east
            &&& bytes::short_at(sent[k].1, 2 * p) == north
            &&& bytes::short_at(sent[k].2, 2 * p) == 512
            &&& rav1e_wrap::made_with(made)[2] == params.quantizer
            &&& rav1e_wrap::made_with(made)[3] == params.speed_preset
        }),
{
    let l = map.frames@[0].layout->Some_0;
    assert(encoder::is_picture(rav1e_wrap::sent_to(made)[k], map.frames@[k], l, pixels));
    law_picture_shows_the_field(
        rav1e_wrap::sent_to(made)[k],
        map.frames@[k],
        l,
        pixels,
        column,
        row,
    );
}

/// A picture is taken where it is ten bits deep with full colour planes, and of the size of the
/// grid; else what is wrong with it is told, its form before its size.
pub proof fn law_pictures_that_are_taken(pic: DecodedPicture, l: GridLayout)
    ensures
        decoder::acceptable(pic, l) <==> pic.bpc == 10 && pic.layout == 3 && pic.width == l.nx
            && pic.height == l.ny,
        pic.bpc != 10 || pic.layout != 3 ==> decoder::refusal(pic, l) == DecodeError::Av1(
            DecoderError::UnexpectedFormat { bpc: pic.bpc, layout: pic.layout },
        ),
        pic.bpc == 10 && pic.layout == 3 ==> decoder::refusal(pic, l) == (
        DecodeError::DimensionMismatch {
            header_nx: l.nx,
            header_ny: l.ny,
            pic_w: pic.width,
            pic_h: pic.height,
        }),
{
}

/// A header has one thing wrong with it at most, and none where it can be read.
pub proof fn law_one_error_for_a_header(file: Seq<u8>, a: DecodeError, b: DecodeError)
    requires
        decoder::header_error(file, a),
        decoder::header_error(file, b),
    ensures
        a is BadMagic == b is BadMagic,
        a is UnsupportedVersion == b is UnsupportedVersion,
        a is BadDimensions == b is BadDimensions,
        a is BadStep == b is BadStep,
        a is Io == b is Io,
        !header::has_header(file),
{
}

/// A file of resampled wind can be read where its signature and its version are right, the winds
/// that its numbers promise can be counted, and there are bytes for all of them.
pub proof fn law_readable_baked_files(file: Seq<u8>)
    requires
        baked_codec::headed(file),
    ensures
        file.len() >= 76,
        file[0] == 0x57 && file[1] == 0x42 && file[2] == 0x41 && file[3] == 0x4B && file[4] == 0x45
            && file[5] == 0x44 && file[6] == 0x30 && file[7] == 0x31,
        bytes::word_at(file, 8) == 1,
        baked_codec::cells_told(file) == bytes::long_at(file, 12) * bytes::long_at(file, 20)
            * bytes::long_at(file, 28),
        bytes::long_at(file, 12) * bytes::long_at(file, 20) * bytes::long_at(file, 28) * 16
            <= usize::MAX,
        baked_codec::readable(file) <==> (baked_codec::zstd_first(
            file.skip(76),
            baked_codec::cells_told(file) * 16,
        ) matches Some(s) && s.len() == baked_codec::cells_told(file) * 16),
{
    let t = file.take(8);
    assert(file[0] == t[0] && file[1] == t[1] && file[2] == t[2] && file[3] == t[3] && file[4] == t[4]
        && file[5] == t[5] && file[6] == t[6] && file[7] == t[7]);
    bytes::law_least_byte_comes_first(file, 8);
    bytes::law_least_byte_comes_first(file, 12);
    bytes::law_least_byte_comes_first(file, 20);
    bytes::law_least_byte_comes_first(file, 28);
}

/// What is read of resampled wind stands where it is written.
pub proof fn law_read_baked_header(file: Seq<u8>, m: BakedWindMap)
    requires
        baked_codec::headed(file),
        baked_codec::shaped_by(file, m),
    ensures
        m.nx == bytes::long_at(file, 12),
        m.ny == bytes::long_at(file, 20),
        m.nt == bytes::long_at(file, 28),
        m.x_min.bits == bytes::long_at(file, 36),
        m.y_min.bits == bytes::long_at(file, 44),
        m.step.bits == bytes::long_at(file, 52),
        m.t_step_seconds.bits == bytes::long_at(file, 60),
        m.coord_scale.bits == bytes::long_at(file, 68),
{
    bytes::law_least_byte_comes_first(file, 12);
    bytes::law_least_byte_comes_first(file, 20);
    bytes::law_least_byte_comes_first(file, 28);
    bytes::law_least_byte_comes_first(file, 36);
    bytes::law_least_byte_comes_first(file, 44);
    bytes::law_least_byte_comes_first(file, 52);
    bytes::law_least_byte_comes_first(file, 60);
    bytes::law_least_byte_comes_first(file, 68);
}

/// A packet written as a frame is the one that is fed next, and reading goes on behind it. Where
/// nothing is left the last pictures are asked for.
pub proof fn law_packets_are_fed_in_turn<'a>(
    step: decoder::Step<'a>,
    packet: Seq<u8>,
    pts: u64,
    tail: Seq<u8>,
    h: Header,
    frames: Vec<WindMap>,
)
    requires
        packet.len() <= u32::MAX,
    ensures
        decoder::takes_packet(step, ivf::frame_bytes(packet, pts) + tail, h, frames) ==> match step {
            decoder::Step::Go(run, decoder::Ask::Feed(fed)) => fed@ == packet && run.packet@ == packet
                && run.packets.rest() == tail && run.frames == frames && run.header == h,
            _ => false,
        },
        decoder::takes_packet(step, Seq::empty(), h, frames) ==> match step {
            decoder::Step::Go(run, decoder::Ask::NextPicture) => run.frames == frames && run.header
                == h && run.phase == decoder::Phase::Flush,
            _ => false,
        },
{
    ivf::law_frame_reads_back(packet, pts, tail);
}

/// Reading comes to an end with the fields read where there are as many as the header tells, and
/// else with how many there should be and how many there are.
pub proof fn law_reading_ends_with_all_fields<'a>(
    step: decoder::Step<'a>,
    h: Header,
    frames: Vec<WindMap>,
)
    requires
        decoder::ends(step, h, frames),
        frames@.len() <= u32::MAX,
    ensures
        match step {
            decoder::Step::Done(Ok(d)) => frames@.len() == h.frame_count && d.frames == frames
                && d.step_seconds == h.step_seconds && d.time_range == h.time_range
                && d.frame_offsets == h.frame_offsets,
            decoder::Step::Done(Err(DecodeError::Truncated { expected, got })) => frames@.len()
                != h.frame_count && expected == h.frame_count && got == frames@.len(),
            _ => false,
        },
{
}

/// A header can be read just if it begins with the signature, is of version 1, 2 or 3 and not
/// cut short, tells at least two columns, two rows and one field, and steps that are finite
/// and above zero.
pub proof fn law_headers_that_can_be_read(file: Seq<u8>)
    requires
        file.len() >= 44,
    ensures
        header::has_header(file) <==> {
            &&& file[0] == 0x57 && file[1] == 0x43 && file[2] == 0x41 && file[3] == 0x56
            &&& file[4] == 0 && file[5] == 0 && file[6] == 0 && file[7] == 0
            &&& bytes::word_at(file, 28) >= 2
            &&& bytes::word_at(file, 32) >= 2
            &&& bytes::word_at(file, 36) >= 1
            &&& 0 < bytes::word_at(file, 20) < 0x7F80_0000
            &&& 0 < bytes::word_at(file, 24) < 0x7F80_0000
            &&& {
                ||| bytes::word_at(file, 8) == 1
                ||| bytes::word_at(file, 8) == 2 && file.len() >= 60
                ||| bytes::word_at(file, 8) == 3 && file.len() >= 60 + 8 * bytes::word_at(file, 36)
            }
        },
{
    let t = file.take(8);
    assert(file[0] == t[0] && file[1] == t[1] && file[2] == t[2] && file[3] == t[3] && file[4] == t[4]
        && file[5] == t[5] && file[6] == t[6] && file[7] == t[7]);
    if file[0] == 0x57 && file[1] == 0x43 && file[2] == 0x41 && file[3] == 0x56 && file[4] == 0
        && file[5] == 0 && file[6] == 0 && file[7] == 0 {
        assert(t =~= crate::wind_av1::MAGIC@);
    }
    bytes::law_least_byte_comes_first(file, 8);
    bytes::law_least_byte_comes_first(file, 20);
    bytes::law_least_byte_comes_first(file, 24);
    bytes::law_least_byte_comes_first(file, 28);
    bytes::law_least_byte_comes_first(file, 32);
    bytes::law_least_byte_comes_first(file, 36);
}

/// A frame that is cut short is told to be.
pub proof fn law_cut_frames_are_told(body: Seq<u8>, pts: u64, n: int)
    requires
        body.len() <= u32::MAX,
        0 < n < 12 + body.len(),
    ensures
        ivf::next_frame(ivf::frame_bytes(body, pts).take(n)) is Cut,
        ivf::next_frame(Seq::empty()) is End,
{
    law_written_frame(body, pts);
    let s = ivf::frame_bytes(body, pts);
    let t = s.take(n);
    if n >= 12 {
        bytes::law_least_byte_comes_first(t, 0);
        assert(t[0] == s[0] && t[1] == s[1] && t[2] == s[2] && t[3] == s[3]);
        assert(bytes::field(t, 0, 4) == body.len());
    }
}

/// A header of resampled wind can be read just if it begins with the signature and the version 1,
/// and its winds can be counted in bytes.
pub proof fn law_baked_headers_that_can_be_read(file: Seq<u8>)
    requires
        file.len() >= 76,
        bytes::long_at(file, 12) > 0,
        bytes::long_at(file, 20) > 0,
        bytes::long_at(file, 28) > 0,
    ensures
        baked_codec::headed(file) <==> {
            &&& file[0] == 0x57 && file[1] == 0x42 && file[2] == 0x41 && file[3] == 0x4B && file[4]
                == 0x45 && file[5] == 0x44 && file[6] == 0x30 && file[7] == 0x31
            &&& bytes::word_at(file, 8) == 1
            &&& bytes::long_at(file, 12) * bytes::long_at(file, 20) * bytes::long_at(file, 28) * 16
                <= usize::MAX
        },
{
    let t = file.take(8);
    assert(file[0] == t[0] && file[1] == t[1] && file[2] == t[2] && file[3] == t[3] && file[4] == t[4]
        && file[5] == t[5] && file[6] == t[6] && file[7] == t[7]);
    if file[0] == 0x57 && file[1] == 0x42 && file[2] == 0x41 && file[3] == 0x4B && file[4] == 0x45
        && file[5] == 0x44 && file[6] == 0x30 && file[7] == 0x31 {
        assert(t =~= baked_codec::MAGIC@);
    }
    bytes::law_least_byte_comes_first(file, 8);
    bytes::law_least_byte_comes_first(file, 12);
    bytes::law_least_byte_comes_first(file, 20);
    bytes::law_least_byte_comes_first(file, 28);
    let (x, y, z) = (bytes::long_at(file, 12), bytes::long_at(file, 20), bytes::long_at(file, 28));
    assert(x <= x * y && y <= x * y && x * y <= x * y * z && z <= x * y * z && x * y * z <= x * y * z
        * 16) by (nonlinear_arith)
        requires
            x > 0,
            y > 0,
            z > 0,
    ;
}

} // verus!
