//! A file out of wind fields.
use crate::bytes;
use crate::given;
use crate::io_error::{IoError, IoErrorKind};
use crate::text;
use crate::wind_av1::header;
use crate::wind_av1::ivf;
use crate::wind_av1::planes;
use crate::wind_av1::rav1e_wrap;
use crate::wind_av1::rav1e_wrap::{Av1Encoder, ConfigError, EncodeStatus};
use crate::wind_av1::{grid_matches, CR_SENTINEL, MAX_PIXEL};
use crate::wind_map;
use crate::wind_map::layout::GridLayout;
use crate::wind_map::{TimedWindMap, WindMap, WindSample};
use vstd::prelude::*;
use vstd::string::*;

verus! {

/// How to encode.
#[derive(Clone, Copy, Debug, PartialEq, Eq, Structural)]
pub struct EncodeParams {
    /// The base quantizer; higher is lossier.
    pub quantizer: u8,
    /// The speed preset, from 0, the slowest, to 10.
    pub speed_preset: u8,
}

impl Default for EncodeParams {
    fn default() -> (p: EncodeParams)
        ensures
            p == (EncodeParams { quantizer: 30, speed_preset: 6 }),
    {
        EncodeParams { quantizer: 30, speed_preset: 6 }
    }
}

/// Why fields cannot be encoded.
#[derive(Debug)]
pub enum EncodeError {
    /// There are no fields.
    Empty,
    /// A field is not on a grid.
    NonGridFrame { frame: usize },
    /// A field is on another grid than the first.
    InconsistentGrid { frame: usize },
    /// A number does not fit.
    Overflow { what: &'static str, value: usize },
    /// The encoder cannot be made.
    InvalidConfig(ConfigError),
    /// The encoder failed.
    Rav1e(EncodeStatus),
    /// A packet cannot be written.
    Io(IoError),
}

impl EncodeError {
    /// The error in words.
    pub open spec fn words(&self) -> Seq<char> {
        match self {
            EncodeError::Empty => "TimedWindMap has no frames"@,
            EncodeError::NonGridFrame { frame } => "frame "@ + text::decimal(*frame as nat)
                + " is not on a regular grid"@,
            EncodeError::InconsistentGrid { frame } => "frame "@ + text::decimal(*frame as nat)
                + "'s grid layout differs from frame 0"@,
            EncodeError::Overflow { what, value } => what@ + " = "@ + text::decimal(*value as nat)
                + " doesn't fit in u32 (on-disk format limit)"@,
            EncodeError::InvalidConfig(e) => "rav1e rejected the encoder config: "@ + e.words(),
            EncodeError::Rav1e(s) => "rav1e encoder error: "@ + s.words(),
            EncodeError::Io(e) => "I/O error: "@ + e.message@,
        }
    }

    /// The error in words.
    pub fn message(&self) -> (s: String)
        ensures
            s@ == self.words(),
    {
        match self {
            EncodeError::Empty => "TimedWindMap has no frames".to_owned(),
            EncodeError::NonGridFrame { frame } => {
                let mut s: String = "frame ".to_owned();
                text::push_decimal(&mut s, *frame as u64);
                s.append(" is not on a regular grid");
                s
            },
            EncodeError::InconsistentGrid { frame } => {
                let mut s: String = "frame ".to_owned();
                text::push_decimal(&mut s, *frame as u64);
                s.append("'s grid layout differs from frame 0");
                s
            },
            EncodeError::Overflow { what, value } => {
                let mut s: String = (*what).to_owned();
                s.append(" = ");
                text::push_decimal(&mut s, *value as u64);
                s.append(" doesn't fit in u32 (on-disk format limit)");
                s
            },
            EncodeError::InvalidConfig(e) => {
                let mut s: String = "rav1e rejected the encoder config: ".to_owned();
                e.push_words(&mut s);
                s
            },
            EncodeError::Rav1e(status) => {
                let mut s: String = "rav1e encoder error: ".to_owned();
                s.append(status.name());
                s
            },
            EncodeError::Io(e) => {
                let mut s: String = "I/O error: ".to_owned();
                s.append(e.message.as_str());
                s
            },
        }
    }
}

/// Whether the first `n` fields are on the grid of the first.
pub open spec fn agree(frames: Seq<WindMap>, n: int) -> bool {
    forall|k: int|
        0 <= k < n ==> (#[trigger] frames[k]).layout is Some && frames[k].layout == frames[0].layout
}

/// Whether there are fields and all are on one grid.
pub open spec fn uniform(frames: Seq<WindMap>) -> bool {
    frames.len() > 0 && agree(frames, frames.len() as int)
}

/// Whether all numbers fit in their places.
pub open spec fn fits(l: GridLayout, count: nat) -> bool {
    l.nx <= u16::MAX && l.ny <= u16::MAX && count <= u32::MAX
}

/// Whether pixels fit in ten bits.
pub open spec fn in_depth<P: Fn(WindSample) -> (u16, u16)>(pixels: P) -> bool {
    forall|s: WindSample| #![trigger given::gives1(pixels, s)]
        given::gives1(pixels, s).0 <= MAX_PIXEL && given::gives1(pixels, s).1 <= MAX_PIXEL
}

/// Whether the planes that were sent are those of a field.
pub open spec fn is_picture<P: Fn(WindSample) -> (u16, u16)>(
    sent: (Seq<u8>, Seq<u8>, Seq<u8>),
    frame: WindMap,
    l: GridLayout,
    pixels: P,
) -> bool {
    exists|y: Seq<u16>, cb: Seq<u16>|
        {
            &&& #[trigger] planes::shows(y, cb, frame.rows@, l.nx as int, l.ny as int, pixels)
            &&& sent.0 == planes::plane_bytes(y)
            &&& sent.1 == planes::plane_bytes(cb)
            &&& sent.2 == planes::plane_bytes(Seq::new((l.nx * l.ny) as nat, |k: int| CR_SENTINEL))
        }
}

/// Whether an encoder was sent the first `n` fields as pictures, in their order.
pub open spec fn was_sent<P: Fn(WindSample) -> (u16, u16)>(
    encoder: Av1Encoder,
    frames: Seq<WindMap>,
    n: int,
    l: GridLayout,
    pixels: P,
) -> bool {
    &&& rav1e_wrap::sent_to(encoder).len() == n
    &&& forall|k: int|
        0 <= k < n ==> is_picture(#[trigger] rav1e_wrap::sent_to(encoder)[k], frames[k], l, pixels)
}

/// The file of packets: a header, the header of the container, and the packets.
pub open spec fn file_of(
    l: GridLayout,
    map: TimedWindMap,
    packets: Seq<Seq<u8>>,
) -> Seq<u8> {
    let (start, end) = header::range_seconds(map.time_range);
    let count = map.frames@.len() as u32;
    header::header_bytes(l, count, map.step_seconds, start, end) + ivf::header_bytes(
        l.nx as u16,
        l.ny as u16,
        1,
        1,
        count,
    ) + ivf::frames_bytes(packets, 0)
}

/// Whether a file holds the packets of an encoder that was sent all fields and asked for
/// packets until it had none left.
pub open spec fn encodes<P: Fn(WindSample) -> (u16, u16)>(
    file: Seq<u8>,
    map: TimedWindMap,
    params: EncodeParams,
    pixels: P,
    encoder: Av1Encoder,
) -> bool {
    let l = map.frames@[0].layout->Some_0;
    &&& rav1e_wrap::made_with(encoder) == rav1e_wrap::settings(
        l.nx,
        l.ny,
        params.quantizer,
        params.speed_preset,
    )
    &&& was_sent(encoder, map.frames@, map.frames@.len() as int, l, pixels)
    &&& rav1e_wrap::ended(encoder)
    &&& rav1e_wrap::emptied(encoder)
    &&& file == file_of(l, map, rav1e_wrap::taken_from(encoder))
    &&& packets_fit(rav1e_wrap::taken_from(encoder))
}

/// Whether an encoder that was sent some of the fields from the first on gave a packet
/// that is too large.
pub open spec fn overflows<P: Fn(WindSample) -> (u16, u16)>(
    encoder: Av1Encoder,
    frames: Seq<WindMap>,
    l: GridLayout,
    params: EncodeParams,
    pixels: P,
) -> bool {
    &&& rav1e_wrap::made_with(encoder) == rav1e_wrap::settings(
        l.nx,
        l.ny,
        params.quantizer,
        params.speed_preset,
    )
    &&& rav1e_wrap::sent_to(encoder).len() <= frames.len()
    &&& was_sent(encoder, frames, rav1e_wrap::sent_to(encoder).len() as int, l, pixels)
    &&& !packets_fit(rav1e_wrap::taken_from(encoder))
}

/// Whether the sizes of packets fit in their places.
pub open spec fn packets_fit(packets: Seq<Seq<u8>>) -> bool {
    forall|k: int| 0 <= k < packets.len() ==> (#[trigger] packets[k]).len() <= u32::MAX
}

/// Whether a file is the one of fields.
pub open spec fn is_file_of<P: Fn(WindSample) -> (u16, u16)>(
    file: Seq<u8>,
    map: TimedWindMap,
    params: EncodeParams,
    pixels: P,
) -> bool {
    exists|encoder: Av1Encoder| #[trigger] encodes(file, map, params, pixels, encoder)
}

/// The grid that all fields share.
fn common_layout(frames: &Vec<WindMap>) -> (r: Result<GridLayout, EncodeError>)
    ensures
        r is Ok <==> uniform(frames@),
        r matches Ok(l) ==> frames@[0].layout == Some(l),
        r matches Err(e) ==> match e {
            EncodeError::Empty => frames@.len() == 0,
            EncodeError::NonGridFrame { frame } => {
                &&& frame < frames@.len()
                &&& agree(frames@, frame as int)
                &&& frames@[frame as int].layout is None
            },
            EncodeError::InconsistentGrid { frame } => {
                &&& frame < frames@.len()
                &&& agree(frames@, frame as int)
                &&& frames@[frame as int].layout is Some
                &&& frames@[frame as int].layout != frames@[0].layout
            },
            _ => false,
        },
{
    if frames.len() == 0 {
        return Err(EncodeError::Empty);
    }
    let layout: GridLayout = match frames[0].grid_layout() {
        None => {
            return Err(EncodeError::NonGridFrame { frame: 0 });
        },
        Some(l) => l,
    };
    let mut k: usize = 1;
    while k < frames.len()
        invariant
            1 <= k <= frames@.len(),
            frames@[0].layout == Some(layout),
            agree(frames@, k as int),
        decreases frames@.len() - k,
    {
        match frames[k].grid_layout() {
            None => {
                assert(frames@[k as int].layout is None);
                return Err(EncodeError::NonGridFrame { frame: k });
            },
            Some(l) => {
                if !grid_matches(&layout, &l) {
                    assert(frames@[k as int].layout != frames@[0].layout);
                    return Err(EncodeError::InconsistentGrid { frame: k });
                }
            },
        }
        k += 1;
    }
    Ok(layout)
}

/// Takes what an encoder gave when it was asked for a packet: appends the packet to a
/// container, or tells whether to ask again.
pub fn take_reply(out: &mut Vec<u8>, pts: u64, reply: Result<Vec<u8>, EncodeStatus>) -> (r: Result<
    bool,
    EncodeError,
>)
    ensures
        match reply {
            Ok(packet) => if packet@.len() <= u32::MAX {
                r == Ok::<bool, EncodeError>(true) && final(out)@ == old(out)@ + ivf::frame_bytes(
                    packet@,
                    pts,
                )
            } else {
                r matches Err(EncodeError::Io(e)) && e.kind == IoErrorKind::InvalidInput && e.message@
                    == "IVF frame > 4 GiB"@ && final(out)@ == old(out)@
            },
            Err(EncodeStatus::Encoded) => r == Ok::<bool, EncodeError>(true) && final(out)@ == old(out)@,
            Err(EncodeStatus::NeedMoreData) | Err(EncodeStatus::LimitReached) => r == Ok::<
                bool,
                EncodeError,
            >(false) && final(out)@ == old(out)@,
            Err(status) => r == Err::<bool, EncodeError>(EncodeError::Rav1e(status)) && final(out)@
                == old(out)@,
        },
{
    match reply {
        Ok(packet) => match ivf::write_frame(out, packet.as_slice(), pts) {
            Err(e) => Err(EncodeError::Io(e)),
            Ok(_) => Ok(true),
        },
        Err(EncodeStatus::Encoded) => Ok(true),
        Err(EncodeStatus::NeedMoreData) => Ok(false),
        Err(EncodeStatus::LimitReached) => Ok(false),
        Err(status) => Err(EncodeError::Rav1e(status)),
    }
}

/// A container has room for as many packets as there are headers in it.
proof fn lemma_frames_take_room(packets: Seq<Seq<u8>>)
    ensures
        ivf::frames_bytes(packets, 0).len() >= 12 * packets.len(),
    decreases packets.len(),
{
    if packets.len() > 0 {
        lemma_frames_take_room(packets.drop_last());
        bytes::lemma_le_bytes_len(packets.last().len(), 4);
        bytes::lemma_le_bytes_len(((packets.len() - 1) as u64) as nat, 8);
    }
}

/// Takes all packets that an encoder has and appends each to a container. It fails only
/// on a packet that is too large.
fn drain_packets(encoder: &mut Av1Encoder, out: &mut Vec<u8>, pts: &mut u64, Ghost(base): Ghost<Seq<u8>>) -> (r:
    Result<(), EncodeError>)
    requires
        old(out)@ == base + ivf::frames_bytes(rav1e_wrap::taken_from(*old(encoder)), 0),
        *old(pts) == rav1e_wrap::taken_from(*old(encoder)).len(),
        packets_fit(rav1e_wrap::taken_from(*old(encoder))),
    ensures
        rav1e_wrap::made_with(*final(encoder)) == rav1e_wrap::made_with(*old(encoder)),
        rav1e_wrap::sent_to(*final(encoder)) == rav1e_wrap::sent_to(*old(encoder)),
        rav1e_wrap::ended(*final(encoder)) == rav1e_wrap::ended(*old(encoder)),
        r is Ok ==> {
            &&& rav1e_wrap::emptied(*final(encoder))
            &&& final(out)@ == base + ivf::frames_bytes(rav1e_wrap::taken_from(*final(encoder)), 0)
            &&& *final(pts) == rav1e_wrap::taken_from(*final(encoder)).len()
            &&& packets_fit(rav1e_wrap::taken_from(*final(encoder)))
        },
        r matches Err(e) ==> (e matches EncodeError::Io(e) && e.kind == IoErrorKind::InvalidInput
            && e.message@ == "IVF frame > 4 GiB"@ && !packets_fit(
            rav1e_wrap::taken_from(*final(encoder)),
        )),
{
    let ghost made = rav1e_wrap::made_with(*encoder);
    let ghost sent = rav1e_wrap::sent_to(*encoder);
    let ghost ended = rav1e_wrap::ended(*encoder);
    loop
        invariant
            made == rav1e_wrap::made_with(*old(encoder)),
            sent == rav1e_wrap::sent_to(*old(encoder)),
            ended == rav1e_wrap::ended(*old(encoder)),
            rav1e_wrap::made_with(*encoder) == made,
            rav1e_wrap::sent_to(*encoder) == sent,
            rav1e_wrap::ended(*encoder) == ended,
            out@ == base + ivf::frames_bytes(rav1e_wrap::taken_from(*encoder), 0),
            *pts == rav1e_wrap::taken_from(*encoder).len(),
            packets_fit(rav1e_wrap::taken_from(*encoder)),
        decreases rav1e_wrap::steps_left(*encoder),
    {
        let ghost taken = rav1e_wrap::taken_from(*encoder);
        let reply: Result<Vec<u8>, EncodeStatus> = rav1e_wrap::receive(encoder);
        let ghost got = reply;
        let packet: bool = reply.is_ok();
        match take_reply(out, *pts, reply) {
            Err(e) => {
                proof {
                    assert(rav1e_wrap::taken_from(*encoder).last() == got->Ok_0@);
                }
                return Err(e);
            },
            Ok(false) => {
                return Ok(());
            },
            Ok(true) => {},
        }
        if packet {
            let room: usize = out.len();
            proof {
                let more = taken.push(got->Ok_0@);
                assert(more.drop_last() =~= taken);
                assert(more.last() == got->Ok_0@);
                assert(out@ =~= base + ivf::frames_bytes(more, 0));
                lemma_frames_take_room(more);
                assert(room >= 12 * more.len());
            }
            *pts = *pts + 1;
        }
    }
}

/// The pixels of the planes of a field fit in ten bits.
proof fn lemma_in_depth<P: Fn(WindSample) -> (u16, u16)>(
    y: Seq<u16>,
    cb: Seq<u16>,
    rows: Seq<wind_map::WeatherRow>,
    nx: int,
    ny: int,
    pixels: P,
)
    requires
        in_depth(pixels),
        planes::shows(y, cb, rows, nx, ny, pixels),
    ensures
        rav1e_wrap::ten_bits(planes::plane_bytes(y)),
        rav1e_wrap::ten_bits(planes::plane_bytes(cb)),
{
    assert forall|p: int| 0 <= p < y.len() implies y[p] <= 1023 && cb[p] <= 1023 by {
        let s = rows[planes::cell_of_pixel(nx, ny, p)].sample;
        assert((y[p], cb[p]) == given::gives1(pixels, s));
    }
    planes::lemma_plane_bytes(y);
    planes::lemma_plane_bytes(cb);
}

/// Encodes fields and appends the container of their packets.
fn encode_payload<P: Fn(WindSample) -> (u16, u16)>(
    out: &mut Vec<u8>,
    frames: &Vec<WindMap>,
    layout: &GridLayout,
    frame_count: u32,
    params: &EncodeParams,
    pixels: &P,
) -> (r: Result<(), EncodeError>)
    requires
        wind_map::all_wf(frames@),
        uniform(frames@),
        frames@[0].layout == Some(*layout),
        frame_count == frames@.len(),
        given::settled1(*pixels),
        in_depth(*pixels),
    ensures
        r is Ok ==> {
            &&& fits(*layout, frames@.len())
            &&& rav1e_wrap::encodable(layout.nx as int)
            &&& rav1e_wrap::encodable(layout.ny as int)
            &&& exists|encoder: Av1Encoder| #[trigger]
                appends(old(out)@, final(out)@, frames@, *layout, frame_count, *params, *pixels, encoder)
        },
        r matches Err(e) ==> match e {
            EncodeError::Overflow { what, value } => {
                ||| what@ == "nx (IVF)"@ && value == layout.nx && value > u16::MAX
                ||| what@ == "ny (IVF)"@ && value == layout.ny && value > u16::MAX && layout.nx
                    <= u16::MAX
            },
            EncodeError::InvalidConfig(e) => {
                &&& fits(*layout, frames@.len())
                &&& !rav1e_wrap::encodable(layout.nx as int) || !rav1e_wrap::encodable(layout.ny as int)
                &&& e == (if !rav1e_wrap::encodable(layout.nx as int) {
                    ConfigError::InvalidWidth(layout.nx)
                } else {
                    ConfigError::InvalidHeight(layout.ny)
                })
            },
            EncodeError::Rav1e(_) => {
                &&& fits(*layout, frames@.len())
                &&& rav1e_wrap::encodable(layout.nx as int)
                &&& rav1e_wrap::encodable(layout.ny as int)
                &&& frames@.len() > rav1e_wrap::FRAME_LIMIT
            },
            EncodeError::Io(e) => {
                &&& fits(*layout, frames@.len())
                &&& rav1e_wrap::encodable(layout.nx as int)
                &&& rav1e_wrap::encodable(layout.ny as int)
                &&& e.kind == IoErrorKind::InvalidInput
                &&& e.message@ == "IVF frame > 4 GiB"@
                &&& exists|encoder: Av1Encoder| #[trigger]
                    overflows(encoder, frames@, *layout, *params, *pixels)
            },
            _ => false,
        },
{
    let nx: usize = layout.nx;
    let ny: usize = layout.ny;
    assert(frames@[0].wf());
    if nx > u16::MAX as usize {
        return Err(EncodeError::Overflow { what: "nx (IVF)", value: nx });
    }
    if ny > u16::MAX as usize {
        return Err(EncodeError::Overflow { what: "ny (IVF)", value: ny });
    }
    let ghost start = out@;
    ivf::write_file_header(out, nx as u16, ny as u16, 1, 1, frame_count);
    let ghost base = out@;
    let mut encoder: Av1Encoder = match rav1e_wrap::open_encoder(
        nx,
        ny,
        params.quantizer,
        params.speed_preset,
    ) {
        Err(e) => {
            return Err(EncodeError::InvalidConfig(e));
        },
        Ok(encoder) => encoder,
    };
    let count: usize = frames[0].rows.len();
    let mut cr: Vec<u16> = Vec::new();
    while cr.len() < count
        invariant
            cr@.len() <= count,
            forall|k: int| 0 <= k < cr@.len() ==> cr@[k] == CR_SENTINEL,
        decreases count - cr@.len(),
    {
        cr.push(CR_SENTINEL);
    }
    let cr_bytes: Vec<u8> = planes::bytes_of_plane(&cr);
    proof {
        assert(cr@ =~= Seq::new((nx * ny) as nat, |k: int| CR_SENTINEL));
        planes::lemma_plane_bytes(cr@);
    }
    let mut pts: u64 = 0;
    proof {
        assert(rav1e_wrap::taken_from(encoder) =~= Seq::<Seq<u8>>::empty());
        assert(out@ =~= base + ivf::frames_bytes(rav1e_wrap::taken_from(encoder), 0));
    }
    let mut k: usize = 0;
    while k < frames.len()
        invariant
            k <= frames@.len(),
            wind_map::all_wf(frames@),
            uniform(frames@),
            frames@[0].layout == Some(*layout),
            frame_count == frames@.len(),
            given::settled1(*pixels),
            in_depth(*pixels),
            nx == layout.nx,
            ny == layout.ny,
            fits(*layout, frames@.len()),
            rav1e_wrap::encodable(nx as int),
            rav1e_wrap::encodable(ny as int),
            cr_bytes@ == planes::plane_bytes(Seq::new((nx * ny) as nat, |k: int| CR_SENTINEL)),
            cr_bytes@.len() == 2 * (nx * ny),
            rav1e_wrap::ten_bits(cr_bytes@),
            rav1e_wrap::made_with(encoder) == rav1e_wrap::settings(
                nx,
                ny,
                params.quantizer,
                params.speed_preset,
            ),
            was_sent(encoder, frames@, k as int, *layout, *pixels),
            k < rav1e_wrap::FRAME_LIMIT ==> !rav1e_wrap::ended(encoder),
            out@ == base + ivf::frames_bytes(rav1e_wrap::taken_from(encoder), 0),
            pts == rav1e_wrap::taken_from(encoder).len(),
            packets_fit(rav1e_wrap::taken_from(encoder)),
        decreases frames@.len() - k,
    {
        assert(frames@[k as int].wf());
        assert(frames@[k as int].layout == Some(*layout));
        let (y, cb): (Vec<u16>, Vec<u16>) = planes::pack_into_planes(&frames[k].rows, nx, ny, pixels);
        let y_bytes: Vec<u8> = planes::bytes_of_plane(&y);
        let cb_bytes: Vec<u8> = planes::bytes_of_plane(&cb);
        let ghost before = rav1e_wrap::sent_to(encoder);
        let stride: usize = nx * 2;
        proof {
            planes::lemma_plane_bytes(y@);
            planes::lemma_plane_bytes(cb@);
            lemma_in_depth(y@, cb@, frames@[k as int].rows@, nx as int, ny as int, *pixels);
            assert(2 * (nx * ny) == (nx * 2) * ny) by (nonlinear_arith);
            assert(rav1e_wrap::made_with(encoder)[0] == nx);
            assert(rav1e_wrap::made_with(encoder)[1] == ny);
        }
        match rav1e_wrap::send_planes(
            &mut encoder,
            stride,
            y_bytes.as_slice(),
            cb_bytes.as_slice(),
            cr_bytes.as_slice(),
        ) {
            Err(status) => {
                return Err(EncodeError::Rav1e(status));
            },
            Ok(_) => {},
        }
        proof {
            let sent = rav1e_wrap::sent_to(encoder);
            assert forall|i: int| 0 <= i < k + 1 implies is_picture(
                #[trigger] sent[i],
                frames@[i],
                *layout,
                *pixels,
            ) by {
                if i < k {
                    assert(is_picture(before[i], frames@[i], *layout, *pixels));
                    assert(sent[i] == before[i]);
                } else {
                    assert(planes::shows(y@, cb@, frames@[i].rows@, nx as int, ny as int, *pixels));
                    assert(sent[i] == (y_bytes@, cb_bytes@, cr_bytes@));
                }
            }
        }
        match drain_packets(&mut encoder, out, &mut pts, Ghost(base)) {
            Err(e) => {
                assert(overflows(encoder, frames@, *layout, *params, *pixels));
                return Err(e);
            },
            Ok(_) => {},
        }
        k += 1;
    }
    rav1e_wrap::flush(&mut encoder);
    match drain_packets(&mut encoder, out, &mut pts, Ghost(base)) {
        Err(e) => {
            assert(overflows(encoder, frames@, *layout, *params, *pixels));
            return Err(e);
        },
        Ok(_) => {},
    }
    assert(appends(start, out@, frames@, *layout, frame_count, *params, *pixels, encoder));
    Ok(())
}

/// Whether `after` is `before` with the container of the packets of an encoder that
/// was sent all fields.
pub open spec fn appends<P: Fn(WindSample) -> (u16, u16)>(
    before: Seq<u8>,
    after: Seq<u8>,
    frames: Seq<WindMap>,
    l: GridLayout,
    frame_count: u32,
    params: EncodeParams,
    pixels: P,
    encoder: Av1Encoder,
) -> bool {
    &&& rav1e_wrap::made_with(encoder) == rav1e_wrap::settings(
        l.nx,
        l.ny,
        params.quantizer,
        params.speed_preset,
    )
    &&& was_sent(encoder, frames, frames.len() as int, l, pixels)
    &&& rav1e_wrap::ended(encoder)
    &&& rav1e_wrap::emptied(encoder)
    &&& packets_fit(rav1e_wrap::taken_from(encoder))
    &&& after == before + ivf::header_bytes(l.nx as u16, l.ny as u16, 1, 1, frame_count)
        + ivf::frames_bytes(rav1e_wrap::taken_from(encoder), 0)
}

/// The file of fields. `pixels` tells the pixels of a wind.
///
/// The first reason against it is told: there are no fields, a field is on no grid or
/// on another than the first, a number does not fit, the pictures are too small, there
/// are more than the encoder counts, or a packet is too large. Otherwise there is a file.
pub fn encode<P: Fn(WindSample) -> (u16, u16)>(map: &TimedWindMap, params: EncodeParams, pixels: &P) -> (r:
    Result<Vec<u8>, EncodeError>)
    requires
        wind_map::all_wf(map.frames@),
        given::settled1(*pixels),
        in_depth(*pixels),
    ensures
        r matches Ok(file) ==> {
            let l = map.frames@[0].layout->Some_0;
            &&& uniform(map.frames@)
            &&& fits(l, map.frames@.len())
            &&& rav1e_wrap::encodable(l.nx as int)
            &&& rav1e_wrap::encodable(l.ny as int)
            &&& is_file_of(file@, *map, params, *pixels)
        },
        r matches Err(e) ==> {
            let frames = map.frames@;
            let l = frames[0].layout->Some_0;
            match e {
                EncodeError::Empty => frames.len() == 0,
                EncodeError::NonGridFrame { frame } => {
                    &&& frame < frames.len()
                    &&& agree(frames, frame as int)
                    &&& frames[frame as int].layout is None
                },
                EncodeError::InconsistentGrid { frame } => {
                    &&& frame < frames.len()
                    &&& agree(frames, frame as int)
                    &&& frames[frame as int].layout is Some
                    &&& frames[frame as int].layout != frames[0].layout
                },
                EncodeError::Overflow { what, value } => {
                    &&& uniform(frames)
                    &&& {
                        ||| what@ == "nx"@ && value == l.nx && value > u32::MAX
                        ||| what@ == "ny"@ && value == l.ny && value > u32::MAX && l.nx <= u32::MAX
                        ||| what@ == "frame_count"@ && value == frames.len() && value > u32::MAX && l.nx
                            <= u32::MAX && l.ny <= u32::MAX
                        ||| what@ == "nx (IVF)"@ && value == l.nx && u16::MAX < value <= u32::MAX && l.ny
                            <= u32::MAX && frames.len() <= u32::MAX
                        ||| what@ == "ny (IVF)"@ && value == l.ny && u16::MAX < value <= u32::MAX && l.nx
                            <= u16::MAX && frames.len() <= u32::MAX
                    }
                },
                EncodeError::InvalidConfig(e) => {
                    &&& uniform(frames)
                    &&& fits(l, frames.len())
                    &&& !rav1e_wrap::encodable(l.nx as int) || !rav1e_wrap::encodable(l.ny as int)
                    &&& e == (if !rav1e_wrap::encodable(l.nx as int) {
                        ConfigError::InvalidWidth(l.nx)
                    } else {
                        ConfigError::InvalidHeight(l.ny)
                    })
                },
                EncodeError::Rav1e(_) => {
                    &&& uniform(frames)
                    &&& fits(l, frames.len())
                    &&& rav1e_wrap::encodable(l.nx as int)
                    &&& rav1e_wrap::encodable(l.ny as int)
                    &&& frames.len() > rav1e_wrap::FRAME_LIMIT
                },
                EncodeError::Io(e) => {
                    &&& uniform(frames)
                    &&& fits(l, frames.len())
                    &&& rav1e_wrap::encodable(l.nx as int)
                    &&& rav1e_wrap::encodable(l.ny as int)
                    &&& e.kind == IoErrorKind::InvalidInput
                    &&& e.message@ == "IVF frame > 4 GiB"@
                    &&& exists|encoder: Av1Encoder| #[trigger]
                        overflows(encoder, frames, l, params, *pixels)
                },
            }
        },
{
    let frames: &Vec<WindMap> = map.frames();
    let layout: GridLayout = match common_layout(frames) {
        Err(e) => {
            return Err(e);
        },
        Ok(l) => l,
    };
    let limit: u64 = u32::MAX as u64;
    if layout.nx as u64 > limit {
        return Err(EncodeError::Overflow { what: "nx", value: layout.nx });
    }
    if layout.ny as u64 > limit {
        return Err(EncodeError::Overflow { what: "ny", value: layout.ny });
    }
    if frames.len() as u64 > limit {
        return Err(EncodeError::Overflow { what: "frame_count", value: frames.len() });
    }
    let frame_count: u32 = frames.len() as u32;
    let (start, end): (i64, i64) = match map.time_range() {
        Some((start, end)) => (start.seconds, end.seconds),
        None => (crate::wind_av1::UNKNOWN_TIME_SENTINEL, crate::wind_av1::UNKNOWN_TIME_SENTINEL),
    };
    let mut out: Vec<u8> = header::write_header(&layout, frame_count, map.step_seconds(), start, end);
    let ghost head = out@;
    match encode_payload(&mut out, frames, &layout, frame_count, &params, pixels) {
        Err(e) => Err(e),
        Ok(_) => {
            proof {
                let encoder = choose|encoder: Av1Encoder| #[trigger]
                    appends(head, out@, frames@, layout, frame_count, params, *pixels, encoder);
                assert(out@ =~= file_of(layout, *map, rav1e_wrap::taken_from(encoder)));
                assert(encodes(out@, *map, params, *pixels, encoder));
            }
            Ok(out)
        },
    }
}

/// The file of fields on a grid that can be read back has a header that reads back,
/// and a container that gives out the packets of the encoder in their order.
pub proof fn law_packets_read_back<P: Fn(WindSample) -> (u16, u16)>(
    file: Seq<u8>,
    map: TimedWindMap,
    params: EncodeParams,
    pixels: P,
)
    requires
        map.wf(),
        is_file_of(file, map, params, pixels),
        uniform(map.frames@),
        fits(map.frames@[0].layout->Some_0, map.frames@.len()),
        map.frames@[0].layout->Some_0.nx >= 2,
        map.frames@[0].layout->Some_0.ny >= 2,
        wind_map::layout::is_step(map.frames@[0].layout->Some_0.step_x),
        wind_map::layout::is_step(map.frames@[0].layout->Some_0.step_y),
    ensures
        header::has_header(file),
        header::header_len(file) == 60,
        exists|encoder: Av1Encoder|
            {
                &&& #[trigger] encodes(file, map, params, pixels, encoder)
                &&& ivf::frames_in(file.skip(60).skip(32)) == Some(rav1e_wrap::taken_from(encoder))
            },
        file.skip(60).len() >= 32,
        file.skip(60).take(4) == ivf::FILE_MAGIC@,
{
    let encoder = choose|encoder: Av1Encoder| #[trigger] encodes(file, map, params, pixels, encoder);
    let l = map.frames@[0].layout->Some_0;
    let packets = rav1e_wrap::taken_from(encoder);
    let count = map.frames@.len() as u32;
    let (start, end) = header::range_seconds(map.time_range);
    let tail = ivf::header_bytes(l.nx as u16, l.ny as u16, 1, 1, count) + ivf::frames_bytes(packets, 0);
    let h: header::Header = arbitrary();
    header::law_header_reads_back(l, count, map.step_seconds, map.time_range, tail, h);
    assert(file =~= header::header_bytes(l, count, map.step_seconds, start, end) + tail);
    ivf::law_header_reads_back(l.nx as u16, l.ny as u16, 1, 1, count, ivf::frames_bytes(packets, 0));
    ivf::law_frames_read_back(packets, 0);
}

} // verus!
