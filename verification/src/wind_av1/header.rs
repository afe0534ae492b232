//! The header of a wind file.
use crate::bytes;
use crate::calendar;
use crate::calendar::UtcTime;
use crate::io_error;
use crate::io_error::{IoError, IoErrorKind};
use crate::number::Real32;
use crate::wind_av1::decoder;
use crate::wind_av1::decoder::DecodeError;
use crate::wind_av1::{HEADER_BYTES_V1, HEADER_BYTES_V2, MAGIC, UNKNOWN_TIME_SENTINEL, VERSION};
use crate::wind_map::layout;
use crate::wind_map::layout::GridLayout;
use vstd::prelude::*;

verus! {

/// When fields hold, counted from the first.
#[derive(Debug)]
pub enum FrameOffsets {
    /// One step after another.
    Uniform,
    /// As many seconds after the first as told.
    Relative(Vec<i128>),
}

/// What a header tells.
#[derive(Debug)]
pub struct Header {
    pub layout: GridLayout,
    pub frame_count: u32,
    pub step_seconds: Real32,
    /// The first and the last instant, where they are known.
    pub time_range: Option<(UtcTime, UtcTime)>,
    pub frame_offsets: FrameOffsets,
}

/// The header of fields on a grid, with the seconds of the first and the last
/// instant.
pub open spec fn header_bytes(
    l: GridLayout,
    frame_count: u32,
    step_seconds: Real32,
    start: i64,
    end: i64,
) -> Seq<u8> {
    MAGIC@ + bytes::le_bytes(VERSION as nat, 4) + bytes::le_bytes(l.origin_x.bits as nat, 4)
        + bytes::le_bytes(l.origin_y.bits as nat, 4) + bytes::le_bytes(l.step_x.bits as nat, 4)
        + bytes::le_bytes(l.step_y.bits as nat, 4) + bytes::le_bytes(l.nx as nat, 4) + bytes::le_bytes(
        l.ny as nat,
        4,
    ) + bytes::le_bytes(frame_count as nat, 4) + bytes::le_bytes(step_seconds.bits as nat, 4)
        + bytes::le_bytes(bytes::unsigned_of(start), 8) + bytes::le_bytes(bytes::unsigned_of(end), 8)
}

/// The seconds that a header holds for instants, or what stands for unknown ones.
pub open spec fn range_seconds(range: Option<(UtcTime, UtcTime)>) -> (i64, i64) {
    match range {
        Some((start, end)) => (start.seconds, end.seconds),
        None => (UNKNOWN_TIME_SENTINEL, UNKNOWN_TIME_SENTINEL),
    }
}

/// The header of fields on a grid.
pub fn write_header(
    l: &GridLayout,
    frame_count: u32,
    step_seconds: Real32,
    start: i64,
    end: i64,
) -> (out: Vec<u8>)
    ensures
        out@ == header_bytes(*l, frame_count, step_seconds, start, end),
{
    let magic: [u8; 8] = MAGIC;
    let mut out: Vec<u8> = Vec::new();
    bytes::push_all(&mut out, magic.as_slice());
    bytes::push_le(&mut out, VERSION as u64, 4);
    bytes::push_le(&mut out, l.origin_x.bits as u64, 4);
    bytes::push_le(&mut out, l.origin_y.bits as u64, 4);
    bytes::push_le(&mut out, l.step_x.bits as u64, 4);
    bytes::push_le(&mut out, l.step_y.bits as u64, 4);
    bytes::push_le(&mut out, l.nx as u64, 4);
    bytes::push_le(&mut out, l.ny as u64, 4);
    bytes::push_le(&mut out, frame_count as u64, 4);
    bytes::push_le(&mut out, step_seconds.bits as u64, 4);
    bytes::push_le(&mut out, bytes::unsigned(start), 8);
    bytes::push_le(&mut out, bytes::unsigned(end), 8);
    assert(out@ =~= header_bytes(*l, frame_count, step_seconds, start, end));
    out
}

/// The version that a header tells.
pub open spec fn version_of(file: Seq<u8>) -> nat {
    bytes::field(file, 8, 4)
}

/// The number of fields that a header tells.
pub open spec fn count_of(file: Seq<u8>) -> nat {
    bytes::field(file, 36, 4)
}

/// Whether a file begins with the signature.
pub open spec fn signed_file(file: Seq<u8>) -> bool {
    file.len() >= 44 && file.take(8) == MAGIC@
}

/// Whether a file is of a version that is understood and as long as its fixed part.
pub open spec fn has_fixed_part(file: Seq<u8>) -> bool {
    &&& signed_file(file)
    &&& version_of(file) == 1 || ((version_of(file) == 2 || version_of(file) == 3) && file.len() >= 60)
}

/// Whether a header tells a grid of at least two columns and rows, and a field.
pub open spec fn dims_told(file: Seq<u8>) -> bool {
    bytes::field(file, 28, 4) >= 2 && bytes::field(file, 32, 4) >= 2 && count_of(file) > 0
}

/// The degrees between columns.
pub open spec fn step_lon_of(file: Seq<u8>) -> Real32 {
    Real32 { bits: bytes::field(file, 20, 4) as u32 }
}

/// The degrees between rows.
pub open spec fn step_lat_of(file: Seq<u8>) -> Real32 {
    Real32 { bits: bytes::field(file, 24, 4) as u32 }
}

/// Whether a header tells steps that are finite and above zero.
pub open spec fn steps_told(file: Seq<u8>) -> bool {
    layout::is_step(step_lon_of(file)) && layout::is_step(step_lat_of(file))
}

/// How long a header is.
pub open spec fn header_len(file: Seq<u8>) -> int {
    if version_of(file) == 1 {
        44
    } else if version_of(file) == 2 {
        60
    } else {
        60 + 8 * (count_of(file) as int)
    }
}

/// Whether a file has a header that can be read.
pub open spec fn has_header(file: Seq<u8>) -> bool {
    has_fixed_part(file) && dims_told(file) && steps_told(file) && file.len() >= header_len(file)
}

/// The signed number in eight bytes.
pub open spec fn signed_field(file: Seq<u8>, at: int) -> int {
    bytes::signed_of(bytes::field(file, at, 8) as u64)
}

/// The instants in a range, where both have a date.
pub open spec fn range_of(start: int, end: int) -> Option<(UtcTime, UtcTime)> {
    if calendar::FIRST_SECOND <= start <= calendar::LAST_SECOND && calendar::FIRST_SECOND <= end
        <= calendar::LAST_SECOND {
        Some(
            (
                (UtcTime { seconds: start as i64, nanos: 0 }),
                (UtcTime { seconds: end as i64, nanos: 0 }),
            ),
        )
    } else {
        None
    }
}

/// Whether one of the times of the fields is not known.
pub open spec fn some_time_unknown(file: Seq<u8>) -> bool {
    exists|k: int| 0 <= k < count_of(file) && #[trigger] signed_field(file, 60 + 8 * k) == i64::MIN
}

/// Whether offsets are those that a header tells: the times of the fields where it
/// holds them and all are known, one step after another otherwise.
pub open spec fn offsets_told(file: Seq<u8>, o: FrameOffsets) -> bool {
    match o {
        FrameOffsets::Uniform => version_of(file) != 3 || some_time_unknown(file),
        FrameOffsets::Relative(v) => {
            &&& version_of(file) == 3
            &&& !some_time_unknown(file)
            &&& v@.len() == count_of(file)
            &&& forall|k: int|
                0 <= k < v@.len() ==> #[trigger] v@[k] == signed_field(file, 60 + 8 * k) - signed_field(
                    file,
                    60,
                )
        },
    }
}

/// Whether a header is the one that a file begins with.
pub open spec fn told_by(file: Seq<u8>, h: Header) -> bool {
    &&& h.layout.origin_x.bits == bytes::field(file, 12, 4)
    &&& h.layout.origin_y.bits == bytes::field(file, 16, 4)
    &&& h.layout.step_x == step_lon_of(file)
    &&& h.layout.step_y == step_lat_of(file)
    &&& h.layout.nx == bytes::field(file, 28, 4)
    &&& h.layout.ny == bytes::field(file, 32, 4)
    &&& h.frame_count == count_of(file)
    &&& h.step_seconds.bits == bytes::field(file, 40, 4)
    &&& h.time_range == (if version_of(file) == 1 {
        None
    } else {
        range_of(signed_field(file, 44), signed_field(file, 52))
    })
    &&& offsets_told(file, h.frame_offsets)
}

/// The instants that two numbers of seconds stand for, or `None` where one is not
/// known or has no date.
fn decode_time_range(start: i64, end: i64) -> (r: Option<(UtcTime, UtcTime)>)
    ensures
        r == range_of(start as int, end as int),
{
    if start == UNKNOWN_TIME_SENTINEL || end == UNKNOWN_TIME_SENTINEL {
        return None;
    }
    match (calendar::utc_second(start), calendar::utc_second(end)) {
        (Some(start), Some(end)) => Some((start, end)),
        _ => None,
    }
}

/// The times of the fields, as they stand behind the fixed part.
pub fn read_v3_frame_times_raw(file: &[u8], frame_count: u32) -> (r: Result<Vec<i64>, IoError>)
    ensures
        r is Ok <==> file@.len() >= 60 + 8 * frame_count,
        r matches Ok(times) ==> {
            &&& times@.len() == frame_count
            &&& forall|k: int|
                0 <= k < frame_count ==> #[trigger] times@[k] == signed_field(file@, 60 + 8 * k)
        },
        r matches Err(e) ==> e.kind == IoErrorKind::UnexpectedEof && e.message@ == io_error::eof_text(),
{
    let len: usize = file.len();
    let needed: u64 = 60 + 8 * frame_count as u64;
    if (len as u64) < needed {
        return Err(IoError::unexpected_eof());
    }
    let mut times: Vec<i64> = Vec::new();
    let mut k: usize = 0;
    while k < frame_count as usize
        invariant
            k <= frame_count,
            len == file@.len(),
            len >= 60 + 8 * frame_count,
            times@.len() == k,
            forall|i: int| 0 <= i < k ==> #[trigger] times@[i] == signed_field(file@, 60 + 8 * i),
        decreases frame_count - k,
    {
        let raw: u64 = bytes::read_u64_le(file, 60 + 8 * k);
        times.push(bytes::signed(raw));
        k += 1;
    }
    Ok(times)
}

/// When fields hold, out of their times; uniformly where one is not known.
fn offsets_of(times: &Vec<i64>) -> (o: FrameOffsets)
    requires
        times@.len() > 0,
    ensures
        match o {
            FrameOffsets::Uniform => exists|k: int|
                0 <= k < times@.len() && #[trigger] times@[k] == UNKNOWN_TIME_SENTINEL,
            FrameOffsets::Relative(v) => {
                &&& forall|k: int| 0 <= k < times@.len() ==> #[trigger] times@[k] != UNKNOWN_TIME_SENTINEL
                &&& v@.len() == times@.len()
                &&& forall|k: int| 0 <= k < v@.len() ==> #[trigger] v@[k] == times@[k] - times@[0]
            },
        },
{
    let base: i64 = times[0];
    let mut v: Vec<i128> = Vec::new();
    let mut k: usize = 0;
    while k < times.len()
        invariant
            k <= times@.len(),
            base == times@[0],
            v@.len() == k,
            forall|i: int| 0 <= i < k ==> #[trigger] times@[i] != UNKNOWN_TIME_SENTINEL,
            forall|i: int| 0 <= i < k ==> #[trigger] v@[i] == times@[i] - times@[0],
        decreases times@.len() - k,
    {
        if times[k] == UNKNOWN_TIME_SENTINEL {
            return FrameOffsets::Uniform;
        }
        v.push(times[k] as i128 - base as i128);
        k += 1;
    }
    FrameOffsets::Relative(v)
}

/// The header that a file begins with, and how long it is.
pub fn read_header(file: &[u8]) -> (r: Result<(Header, usize), DecodeError>)
    ensures
        r is Ok <==> has_header(file@),
        r matches Ok((h, at)) ==> told_by(file@, h) && at == header_len(file@),
        r matches Err(e) ==> decoder::header_error(file@, e),
{
    let len: usize = file.len();
    if len < HEADER_BYTES_V1 {
        return Err(DecodeError::Io(IoError::unexpected_eof()));
    }
    let magic: [u8; 8] = MAGIC;
    assert(file@.subrange(0, 8) =~= file@.take(8));
    if !bytes::holds_at(file, 0, magic.as_slice()) {
        return Err(DecodeError::BadMagic);
    }
    let version: u32 = bytes::read_u32_le(file, 8);
    let time_range: Option<(UtcTime, UtcTime)> = match version {
        1 => None,
        2 | 3 => {
            if len < HEADER_BYTES_V2 {
                return Err(DecodeError::Io(IoError::unexpected_eof()));
            }
            let start: u64 = bytes::read_u64_le(file, 44);
            let end: u64 = bytes::read_u64_le(file, 52);
            decode_time_range(bytes::signed(start), bytes::signed(end))
        },
        _ => {
            return Err(DecodeError::UnsupportedVersion(version));
        },
    };
    let origin_x: Real32 = Real32 { bits: bytes::read_u32_le(file, 12) };
    let origin_y: Real32 = Real32 { bits: bytes::read_u32_le(file, 16) };
    let step_x: Real32 = Real32 { bits: bytes::read_u32_le(file, 20) };
    let step_y: Real32 = Real32 { bits: bytes::read_u32_le(file, 24) };
    let nx: u32 = bytes::read_u32_le(file, 28);
    let ny: u32 = bytes::read_u32_le(file, 32);
    let frame_count: u32 = bytes::read_u32_le(file, 36);
    let step_seconds: Real32 = Real32 { bits: bytes::read_u32_le(file, 40) };
    if nx < 2 || ny < 2 || frame_count == 0 {
        return Err(DecodeError::BadDimensions { nx, ny, frame_count });
    }
    let zero: Real32 = Real32 { bits: 0 };
    if !step_x.is_finite() || !step_y.is_finite() || step_x.le(zero) || step_y.le(zero) {
        return Err(DecodeError::BadStep { step_lon: step_x, step_lat: step_y });
    }
    let layout: GridLayout = GridLayout {
        origin_x,
        origin_y,
        step_x,
        step_y,
        nx: nx as usize,
        ny: ny as usize,
    };
    let mut at: usize = if version == 1 {
        HEADER_BYTES_V1
    } else {
        HEADER_BYTES_V2
    };
    let frame_offsets: FrameOffsets = if version == 3 {
        let times: Vec<i64> = match read_v3_frame_times_raw(file, frame_count) {
            Err(e) => {
                return Err(DecodeError::Io(e));
            },
            Ok(times) => times,
        };
        at = HEADER_BYTES_V2 + 8 * frame_count as usize;
        let o: FrameOffsets = offsets_of(&times);
        proof {
            if o is Uniform {
                let k = choose|k: int|
                    0 <= k < times@.len() && #[trigger] times@[k] == UNKNOWN_TIME_SENTINEL;
                assert(signed_field(file@, 60 + 8 * k) == i64::MIN);
            } else {
                assert forall|k: int| 0 <= k < count_of(file@) implies #[trigger] signed_field(
                    file@,
                    60 + 8 * k,
                ) != i64::MIN by {
                    assert(times@[k] != UNKNOWN_TIME_SENTINEL);
                }
                assert(times@[0] == signed_field(file@, 60 + 8 * 0int));
            }
        }
        o
    } else {
        FrameOffsets::Uniform
    };
    Ok((Header { layout, frame_count, step_seconds, time_range, frame_offsets }, at))
}

/// A header that is written reads back: its grid, the number of fields, the time
/// between them and the instants, these to the second.
pub proof fn law_header_reads_back(
    l: GridLayout,
    frame_count: u32,
    step_seconds: Real32,
    range: Option<(UtcTime, UtcTime)>,
    tail: Seq<u8>,
    h: Header,
)
    requires
        2 <= l.nx <= u32::MAX,
        2 <= l.ny <= u32::MAX,
        frame_count > 0,
        layout::is_step(l.step_x),
        layout::is_step(l.step_y),
        range matches Some((start, end)) ==> start.wf() && end.wf(),
    ensures
        ({
            let (start, end) = range_seconds(range);
            let file = header_bytes(l, frame_count, step_seconds, start, end) + tail;
            &&& has_header(file)
            &&& header_len(file) == 60
            &&& file.skip(60) == tail
            &&& told_by(file, h) ==> {
                &&& h.layout == l
                &&& h.frame_count == frame_count
                &&& h.step_seconds == step_seconds
                &&& h.frame_offsets is Uniform
                &&& h.time_range == (match range {
                    Some((start, end)) => Some(
                        (
                            (UtcTime { seconds: start.seconds, nanos: 0 }),
                            (UtcTime { seconds: end.seconds, nanos: 0 }),
                        ),
                    ),
                    None => None,
                })
            }
        }),
{
    let (start, end) = range_seconds(range);
    let file = header_bytes(l, frame_count, step_seconds, start, end) + tail;
    bytes::lemma_pow256();
    bytes::law_value_of_bytes(VERSION as nat, 4);
    bytes::law_value_of_bytes(l.origin_x.bits as nat, 4);
    bytes::law_value_of_bytes(l.origin_y.bits as nat, 4);
    bytes::law_value_of_bytes(l.step_x.bits as nat, 4);
    bytes::law_value_of_bytes(l.step_y.bits as nat, 4);
    bytes::law_value_of_bytes(l.nx as nat, 4);
    bytes::law_value_of_bytes(l.ny as nat, 4);
    bytes::law_value_of_bytes(frame_count as nat, 4);
    bytes::law_value_of_bytes(step_seconds.bits as nat, 4);
    bytes::law_value_of_bytes(bytes::unsigned_of(start), 8);
    bytes::law_value_of_bytes(bytes::unsigned_of(end), 8);
    assert(file.take(8) =~= MAGIC@);
    assert(file.subrange(8, 12) =~= bytes::le_bytes(VERSION as nat, 4));
    assert(file.subrange(12, 16) =~= bytes::le_bytes(l.origin_x.bits as nat, 4));
    assert(file.subrange(16, 20) =~= bytes::le_bytes(l.origin_y.bits as nat, 4));
    assert(file.subrange(20, 24) =~= bytes::le_bytes(l.step_x.bits as nat, 4));
    assert(file.subrange(24, 28) =~= bytes::le_bytes(l.step_y.bits as nat, 4));
    assert(file.subrange(28, 32) =~= bytes::le_bytes(l.nx as nat, 4));
    assert(file.subrange(32, 36) =~= bytes::le_bytes(l.ny as nat, 4));
    assert(file.subrange(36, 40) =~= bytes::le_bytes(frame_count as nat, 4));
    assert(file.subrange(40, 44) =~= bytes::le_bytes(step_seconds.bits as nat, 4));
    assert(file.subrange(44, 52) =~= bytes::le_bytes(bytes::unsigned_of(start), 8));
    assert(file.subrange(52, 60) =~= bytes::le_bytes(bytes::unsigned_of(end), 8));
    assert(file.skip(60) =~= tail);
    assert(signed_field(file, 44) == start);
    assert(signed_field(file, 52) == end);
}

} // verus!
