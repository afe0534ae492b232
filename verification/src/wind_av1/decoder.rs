//! Wind fields out of a file.
//!
//! A run goes through the packets of a file. It asks for a packet to be fed to a
//! decoder and for the pictures that the decoder gives, and is told what came of it.
use crate::bytes;
use crate::calendar::UtcTime;
use crate::given;
use crate::io_error;
use crate::io_error::{IoError, IoErrorKind};
use crate::number::Real32;
use crate::text;
use crate::wind_av1::header;
use crate::wind_av1::header::{read_header, FrameOffsets, Header};
use crate::wind_av1::ivf;
use crate::wind_av1::ivf::IvfReader;
use crate::wind_av1::planes;
use crate::wind_av1::rav1d_wrap::{DecodedPicture, DecoderError};
use crate::wind_av1::MAGIC;
use crate::wind_map;
use crate::wind_map::layout::GridLayout;
use crate::wind_map::{TimedWindMap, WindMap, WindSample};
use vstd::prelude::*;
use vstd::string::*;

verus! {

/// Why a file cannot be read.
#[derive(Debug)]
pub enum DecodeError {
    /// The file does not begin with the signature.
    BadMagic,
    /// The file is of a version that is not understood.
    UnsupportedVersion(u32),
    /// There are fewer than two columns or rows, or no fields.
    BadDimensions { nx: u32, ny: u32, frame_count: u32 },
    /// A step of the grid is not finite or not above zero.
    BadStep { step_lon: Real32, step_lat: Real32 },
    /// There are not as many pictures as the header tells.
    Truncated { expected: u32, got: u32 },
    /// A picture is not of the size of the grid.
    DimensionMismatch { header_nx: usize, header_ny: usize, pic_w: usize, pic_h: usize },
    /// The pictures cannot be decoded.
    Av1(DecoderError),
    /// The file ends too early, or its container cannot be read.
    Io(IoError),
}

impl DecodeError {
    /// The error in words. `show` writes numbers.
    pub open spec fn words<S: Fn(Real32) -> String>(&self, show: S) -> Seq<char> {
        match self {
            DecodeError::BadMagic => "not a wind_av1 file (bad magic)"@,
            DecodeError::UnsupportedVersion(v) => "unsupported wind_av1 version: "@ + text::decimal(
                *v as nat,
            ),
            DecodeError::BadDimensions { nx, ny, frame_count } => "invalid grid dimensions: nx="@
                + text::decimal(*nx as nat) + ", ny="@ + text::decimal(*ny as nat) + ", frame_count="@
                + text::decimal(*frame_count as nat),
            DecodeError::BadStep { step_lon, step_lat } => "invalid grid step: step_lon="@
                + given::words1(show, *step_lon) + ", step_lat="@ + given::words1(show, *step_lat),
            DecodeError::Truncated { expected, got } => "IVF stream truncated: expected "@
                + text::decimal(*expected as nat) + " frames, decoded "@ + text::decimal(*got as nat),
            DecodeError::DimensionMismatch { header_nx, header_ny, pic_w, pic_h } => "AV1 picture "@
                + text::decimal(*pic_w as nat) + "x"@ + text::decimal(*pic_h as nat)
                + " doesn't match header grid "@ + text::decimal(*header_nx as nat) + "x"@
                + text::decimal(*header_ny as nat),
            DecodeError::Av1(e) => "AV1 decode: "@ + e.words(),
            DecodeError::Io(e) => "I/O error: "@ + e.message@,
        }
    }

    /// The error in words. `show` writes numbers.
    pub fn message<S: Fn(Real32) -> String>(&self, show: &S) -> (s: String)
        requires
            given::worded1(*show),
        ensures
            s@ == self.words(*show),
    {
        match self {
            DecodeError::BadMagic => "not a wind_av1 file (bad magic)".to_owned(),
            DecodeError::UnsupportedVersion(v) => {
                let mut s: String = "unsupported wind_av1 version: ".to_owned();
                text::push_decimal(&mut s, *v as u64);
                s
            },
            DecodeError::BadDimensions { nx, ny, frame_count } => {
                let mut s: String = "invalid grid dimensions: nx=".to_owned();
                text::push_decimal(&mut s, *nx as u64);
                s.append(", ny=");
                text::push_decimal(&mut s, *ny as u64);
                s.append(", frame_count=");
                text::push_decimal(&mut s, *frame_count as u64);
                s
            },
            DecodeError::BadStep { step_lon, step_lat } => {
                let mut s: String = "invalid grid step: step_lon=".to_owned();
                let lon: String = show(*step_lon);
                s.append(lon.as_str());
                s.append(", step_lat=");
                let lat: String = show(*step_lat);
                s.append(lat.as_str());
                s
            },
            DecodeError::Truncated { expected, got } => {
                let mut s: String = "IVF stream truncated: expected ".to_owned();
                text::push_decimal(&mut s, *expected as u64);
                s.append(" frames, decoded ");
                text::push_decimal(&mut s, *got as u64);
                s
            },
            DecodeError::DimensionMismatch { header_nx, header_ny, pic_w, pic_h } => {
                let mut s: String = "AV1 picture ".to_owned();
                text::push_decimal(&mut s, *pic_w as u64);
                s.append("x");
                text::push_decimal(&mut s, *pic_h as u64);
                s.append(" doesn't match header grid ");
                text::push_decimal(&mut s, *header_nx as u64);
                s.append("x");
                text::push_decimal(&mut s, *header_ny as u64);
                s
            },
            DecodeError::Av1(e) => {
                let mut s: String = "AV1 decode: ".to_owned();
                let words: String = e.message();
                s.append(words.as_str());
                s
            },
            DecodeError::Io(e) => {
                let mut s: String = "I/O error: ".to_owned();
                s.append(e.message.as_str());
                s
            },
        }
    }
}

/// What a file holds.
pub struct DecodedFrames {
    pub frames: Vec<WindMap>,
    pub step_seconds: Real32,
    pub time_range: Option<(UtcTime, UtcTime)>,
    pub frame_offsets: FrameOffsets,
}

impl DecodedFrames {
    /// Whether the fields are in order and the instants have a date.
    pub open spec fn wf(&self) -> bool {
        &&& self.frames@.len() > 0
        &&& wind_map::all_wf(self.frames@)
        &&& self.time_range matches Some((start, end)) ==> start.wf() && end.wf()
    }

    /// The fields a fixed time apart, with their first and last instant in order. A map has
    /// one step for all its fields: `frame_offsets` stays behind with whoever decoded the
    /// file, and is to be read before.
    pub fn into_map<F: Fn(Real32) -> Real32>(self, crossfade: &F) -> (map: TimedWindMap)
        requires
            self.wf(),
            (Real32 { bits: 0 }).below(self.step_seconds),
            given::settled1(*crossfade),
        ensures
            map.wf(),
            map.frames == self.frames,
            map.step_seconds == self.step_seconds,
            map.crossfade_seconds == given::gives1(*crossfade, self.step_seconds),
            map.time_range == (match self.time_range {
                None => None,
                Some((start, end)) => Some(
                    if start.instant() <= end.instant() {
                        (start, end)
                    } else {
                        (end, start)
                    },
                ),
            }),
    {
        let map: TimedWindMap = TimedWindMap::new(self.frames, self.step_seconds, crossfade);
        match self.time_range {
            None => map,
            Some((start, end)) => map.with_time_range(start, end),
        }
    }
}

/// What a run is doing.
#[derive(Clone, Copy, Debug, PartialEq, Eq, Structural)]
pub enum Phase {
    /// A packet is being fed.
    Feed,
    /// The decoder refused the packet until pictures are taken.
    MakeRoom,
    /// The pictures after a packet are taken.
    Drain,
    /// All packets were fed; the last pictures are taken.
    Flush,
}

/// What a run asks for.
#[derive(Debug)]
pub enum Ask {
    /// To feed a packet to the decoder.
    Feed(Vec<u8>),
    /// The next picture of the decoder.
    NextPicture,
}

/// A run through the packets of a file.
pub struct DecodeRun<'a> {
    pub header: Header,
    pub packets: IvfReader<'a>,
    pub frames: Vec<WindMap>,
    pub packet: Vec<u8>,
    pub phase: Phase,
}

/// How a run goes on.
pub enum Step<'a> {
    /// It asks for something.
    Go(DecodeRun<'a>, Ask),
    /// It has come to its end.
    Done(Result<DecodedFrames, DecodeError>),
}

/// Whether a failure is that of reading past the end.
pub open spec fn is_eof(e: IoError) -> bool {
    e.kind == IoErrorKind::UnexpectedEof && e.message@ == io_error::eof_text()
}

/// Whether a failure is that of packets that end too early.
pub open spec fn is_cut(e: IoError) -> bool {
    e.kind == IoErrorKind::InvalidData && e.message@ == io_error::eof_text()
}

/// Whether a field is the one that a picture shows on a grid.
pub open spec fn pictured<
    X: Fn(usize) -> Real32,
    Y: Fn(usize) -> Real32,
    W: Fn(u16, u16) -> WindSample,
>(m: WindMap, pic: DecodedPicture, l: GridLayout, lon_of: X, lat_of: Y, wind_of: W) -> bool {
    &&& m.layout == Some(l)
    &&& planes::shown(m.rows@, pic.y@, pic.cb@, l.nx as int, l.ny as int, lon_of, lat_of, wind_of)
}

/// Whether a picture is of the form that is written and of the size of a grid.
pub open spec fn acceptable(pic: DecodedPicture, l: GridLayout) -> bool {
    pic.as_written() && pic.width == l.nx && pic.height == l.ny
}

/// The error of a picture that is not acceptable.
pub open spec fn refusal(pic: DecodedPicture, l: GridLayout) -> DecodeError {
    if !pic.as_written() {
        DecodeError::Av1(DecoderError::UnexpectedFormat { bpc: pic.bpc, layout: pic.layout })
    } else {
        DecodeError::DimensionMismatch {
            header_nx: l.nx,
            header_ny: l.ny,
            pic_w: pic.width,
            pic_h: pic.height,
        }
    }
}

/// The field that a picture shows on a grid. A picture of another form or size than
/// the grid is refused.
pub fn collect_picture<
    X: Fn(usize) -> Real32,
    Y: Fn(usize) -> Real32,
    W: Fn(u16, u16) -> WindSample,
>(pic: &DecodedPicture, layout: &GridLayout, lon_of: &X, lat_of: &Y, wind_of: &W) -> (r: Result<
    WindMap,
    DecodeError,
>)
    requires
        pic.wf(),
        layout.nx > 0,
        layout.ny > 0,
        given::settled1(*lon_of),
        given::settled1(*lat_of),
        given::settled2(*wind_of),
    ensures
        r is Ok <==> acceptable(*pic, *layout),
        r matches Ok(m) ==> m.wf() && pictured(m, *pic, *layout, *lon_of, *lat_of, *wind_of),
        r matches Err(e) ==> e == refusal(*pic, *layout),
{
    match pic.check_format() {
        Err(e) => {
            return Err(DecodeError::Av1(e));
        },
        Ok(_) => {},
    }
    let w: usize = pic.width();
    let h: usize = pic.height();
    if w != layout.nx || h != layout.ny {
        return Err(
            DecodeError::DimensionMismatch {
                header_nx: layout.nx,
                header_ny: layout.ny,
                pic_w: w,
                pic_h: h,
            },
        );
    }
    let rows: Vec<wind_map::WeatherRow> = planes::unpack_planes(
        &pic.y,
        &pic.cb,
        layout,
        lon_of,
        lat_of,
        wind_of,
    );
    Ok(WindMap::from_grid(rows, *layout))
}

/// Whether a run goes on with the next packet of what is left: it is fed; at the end
/// the last pictures are asked for; where the file is cut, this is the end.
pub open spec fn takes_packet<'a>(step: Step<'a>, rest: Seq<u8>, header: Header, frames: Vec<WindMap>) -> bool {
    match ivf::next_frame(rest) {
        ivf::NextFrame::Cut => step matches Step::Done(Err(DecodeError::Io(e))) && is_cut(e),
        ivf::NextFrame::End => step matches Step::Go(run, Ask::NextPicture) && {
            &&& run.wf()
            &&& run.header == header
            &&& run.frames == frames
            &&& run.packets.rest() == rest
            &&& run.phase == Phase::Flush
        },
        ivf::NextFrame::Frame { body, taken } => step matches Step::Go(run, Ask::Feed(packet)) && {
            &&& run.wf()
            &&& run.header == header
            &&& run.frames == frames
            &&& run.packets.rest() == rest.skip(taken)
            &&& run.packet@ == body
            &&& packet@ == body
            &&& run.phase == Phase::Feed
        },
    }
}

/// Whether a run ends with the fields that it has, or with an error where they are
/// not as many as told.
pub open spec fn ends<'a>(step: Step<'a>, header: Header, frames: Vec<WindMap>) -> bool {
    if frames@.len() == header.frame_count {
        step matches Step::Done(Ok(d)) && {
            &&& d.wf()
            &&& d.frames == frames
            &&& d.step_seconds == header.step_seconds
            &&& d.time_range == header.time_range
            &&& d.frame_offsets == header.frame_offsets
        }
    } else {
        step matches Step::Done(Err(DecodeError::Truncated { expected, got })) && expected
            == header.frame_count && got == (if frames@.len() > u32::MAX {
            u32::MAX as nat
        } else {
            frames@.len()
        })
    }
}

impl<'a> DecodeRun<'a> {
    /// Whether the grid has two columns and rows, there is to be a field, and those
    /// that there are are in order.
    pub open spec fn wf(&self) -> bool {
        &&& self.header.layout.nx >= 2
        &&& self.header.layout.ny >= 2
        &&& self.header.frame_count > 0
        &&& self.header.time_range matches Some((start, end)) ==> start.wf() && end.wf()
        &&& wind_map::all_wf(self.frames@)
        &&& self.packets.wf()
    }

    /// A run through a file, at its first packet.
    pub fn begin(file: &'a [u8]) -> (step: Step<'a>)
        ensures
            !header::has_header(file@) ==> (step matches Step::Done(Err(e)) && header_error(file@, e)),
            header::has_header(file@) ==> {
                let body = file@.skip(header::header_len(file@));
                if body.len() < 32 {
                    step matches Step::Done(Err(DecodeError::Io(e))) && is_cut(e)
                } else if body.take(4) != ivf::FILE_MAGIC@ {
                    step matches Step::Done(Err(DecodeError::Io(e))) && e.kind == IoErrorKind::InvalidData
                        && e.message@ == ivf::bad_magic_text(body)
                } else {
                    exists|h: Header, none: Vec<WindMap>|
                        {
                            &&& #[trigger] header::told_by(file@, h)
                            &&& none@.len() == 0
                            &&& #[trigger] takes_packet(step, body.skip(32), h, none)
                        }
                }
            },
    {
        let (header, at): (Header, usize) = match read_header(file) {
            Err(e) => {
                return Step::Done(Err(e));
            },
            Ok(h) => h,
        };
        let body: &'a [u8] = vstd::slice::slice_subrange(file, at, file.len());
        assert(body@ =~= file@.skip(at as int));
        let packets: IvfReader<'a> = match IvfReader::open(body) {
            Err(e) => {
                return Step::Done(Err(DecodeError::Io(e)));
            },
            Ok(r) => r,
        };
        let frames: Vec<WindMap> = Vec::new();
        let run: DecodeRun<'a> = DecodeRun {
            header,
            packets,
            frames,
            packet: Vec::new(),
            phase: Phase::Feed,
        };
        assert(header::told_by(file@, run.header));
        run.next_packet()
    }

    /// Goes on with the next packet.
    fn next_packet(self) -> (step: Step<'a>)
        requires
            self.wf(),
        ensures
            takes_packet(step, self.packets.rest(), self.header, self.frames),
    {
        let mut packets: IvfReader<'a> = self.packets;
        match packets.read_frame() {
            Err(e) => Step::Done(Err(DecodeError::Io(e))),
            Ok(None) => Step::Go(
                DecodeRun {
                    header: self.header,
                    packets,
                    frames: self.frames,
                    packet: self.packet,
                    phase: Phase::Flush,
                },
                Ask::NextPicture,
            ),
            Ok(Some(packet)) => {
                let copy: Vec<u8> = copied(&packet);
                Step::Go(
                    DecodeRun {
                        header: self.header,
                        packets,
                        frames: self.frames,
                        packet,
                        phase: Phase::Feed,
                    },
                    Ask::Feed(copy),
                )
            },
        }
    }

    /// Tells a run what came of feeding its packet: whether the decoder took it, or how
    /// it failed. Where it did not take it, pictures have to be taken first.
    pub fn on_fed(self, got: Result<bool, DecoderError>) -> (step: Step<'a>)
        requires
            self.wf(),
            self.phase == Phase::Feed,
        ensures
            match got {
                Err(e) => step matches Step::Done(Err(DecodeError::Av1(f))) && f == e,
                Ok(accepted) => step matches Step::Go(run, Ask::NextPicture) && {
                    &&& run.wf()
                    &&& run.header == self.header
                    &&& run.frames == self.frames
                    &&& run.packet == self.packet
                    &&& run.packets.rest() == self.packets.rest()
                    &&& run.phase == (if accepted {
                        Phase::Drain
                    } else {
                        Phase::MakeRoom
                    })
                },
            },
    {
        match got {
            Err(e) => Step::Done(Err(DecodeError::Av1(e))),
            Ok(accepted) => Step::Go(
                DecodeRun {
                    header: self.header,
                    packets: self.packets,
                    frames: self.frames,
                    packet: self.packet,
                    phase: if accepted {
                        Phase::Drain
                    } else {
                        Phase::MakeRoom
                    },
                },
                Ask::NextPicture,
            ),
        }
    }

    /// Tells a run what came of asking for a picture: a picture, that there is none
    /// now, or how the decoder failed.
    ///
    /// A picture becomes a field. After it a packet that was refused is fed again, and
    /// otherwise the next picture is asked for. Where there is no picture, the run
    /// goes on with the pictures after a refused packet, with the next packet, or
    /// comes to its end.
    pub fn on_picture<
        X: Fn(usize) -> Real32,
        Y: Fn(usize) -> Real32,
        W: Fn(u16, u16) -> WindSample,
    >(
        self,
        got: Result<Option<DecodedPicture>, DecoderError>,
        lon_of: &X,
        lat_of: &Y,
        wind_of: &W,
    ) -> (step: Step<'a>)
        requires
            self.wf(),
            self.phase != Phase::Feed,
            got matches Ok(Some(pic)) ==> pic.wf(),
            given::settled1(*lon_of),
            given::settled1(*lat_of),
            given::settled2(*wind_of),
        ensures
            match got {
                Err(e) => step matches Step::Done(Err(DecodeError::Av1(f))) && f == e,
                Ok(Some(pic)) => if !acceptable(pic, self.header.layout) {
                    step matches Step::Done(Err(e)) && e == refusal(pic, self.header.layout)
                } else {
                    step matches Step::Go(run, ask) && {
                        &&& run.wf()
                        &&& run.header == self.header
                        &&& run.packet == self.packet
                        &&& run.packets.rest() == self.packets.rest()
                        &&& run.frames@.len() == self.frames@.len() + 1
                        &&& run.frames@.drop_last() == self.frames@
                        &&& pictured(
                            run.frames@.last(),
                            pic,
                            self.header.layout,
                            *lon_of,
                            *lat_of,
                            *wind_of,
                        )
                        &&& if self.phase == Phase::MakeRoom {
                            run.phase == Phase::Feed && (ask matches Ask::Feed(packet) && packet@
                                == self.packet@)
                        } else {
                            run.phase == self.phase && ask is NextPicture
                        }
                    }
                },
                Ok(None) => match self.phase {
                    Phase::MakeRoom => step matches Step::Go(run, Ask::NextPicture) && {
                        &&& run.wf()
                        &&& run.header == self.header
                        &&& run.frames == self.frames
                        &&& run.packets.rest() == self.packets.rest()
                        &&& run.phase == Phase::Drain
                    },
                    Phase::Drain => takes_packet(step, self.packets.rest(), self.header, self.frames),
                    _ => ends(step, self.header, self.frames),
                },
            },
    {
        match got {
            Err(e) => Step::Done(Err(DecodeError::Av1(e))),
            Ok(None) => match self.phase {
                Phase::MakeRoom => Step::Go(
                    DecodeRun {
                        header: self.header,
                        packets: self.packets,
                        frames: self.frames,
                        packet: self.packet,
                        phase: Phase::Drain,
                    },
                    Ask::NextPicture,
                ),
                Phase::Drain => self.next_packet(),
                _ => self.finish(),
            },
            Ok(Some(pic)) => {
                let map: WindMap = match collect_picture(
                    &pic,
                    &self.header.layout,
                    lon_of,
                    lat_of,
                    wind_of,
                ) {
                    Err(e) => {
                        return Step::Done(Err(e));
                    },
                    Ok(map) => map,
                };
                let mut frames: Vec<WindMap> = self.frames;
                frames.push(map);
                proof {
                    assert(frames@.drop_last() =~= self.frames@);
                    assert forall|k: int| 0 <= k < frames@.len() implies (#[trigger] frames@[k]).wf() by {
                        if k < self.frames@.len() {
                            assert(frames@[k] == self.frames@[k]);
                        }
                    }
                }
                let (phase, ask): (Phase, Ask) = match self.phase {
                    Phase::MakeRoom => (Phase::Feed, Ask::Feed(copied(&self.packet))),
                    other => (other, Ask::NextPicture),
                };
                Step::Go(
                    DecodeRun {
                        header: self.header,
                        packets: self.packets,
                        frames,
                        packet: self.packet,
                        phase,
                    },
                    ask,
                )
            },
        }
    }

    /// Ends a run.
    fn finish(self) -> (step: Step<'a>)
        requires
            self.wf(),
        ensures
            ends(step, self.header, self.frames),
    {
        let got: usize = self.frames.len();
        if got as u64 != self.header.frame_count as u64 {
            let told: u32 = if got as u64 > u32::MAX as u64 {
                u32::MAX
            } else {
                got as u32
            };
            return Step::Done(
                Err(DecodeError::Truncated { expected: self.header.frame_count, got: told }),
            );
        }
        Step::Done(
            Ok(
                DecodedFrames {
                    frames: self.frames,
                    step_seconds: self.header.step_seconds,
                    time_range: self.header.time_range,
                    frame_offsets: self.header.frame_offsets,
                },
            ),
        )
    }
}

/// The same bytes.
fn copied(v: &Vec<u8>) -> (c: Vec<u8>)
    ensures
        c@ == v@,
{
    let mut c: Vec<u8> = Vec::new();
    bytes::push_all(&mut c, v.as_slice());
    assert(c@ =~= v@);
    c
}

/// Why a header cannot be read.
pub open spec fn header_error(file: Seq<u8>, e: DecodeError) -> bool {
    match e {
        DecodeError::BadMagic => file.len() >= 44 && file.take(8) != MAGIC@,
        DecodeError::UnsupportedVersion(v) => {
            &&& header::signed_file(file)
            &&& v == header::version_of(file)
            &&& v != 1 && v != 2 && v != 3
        },
        DecodeError::BadDimensions { nx, ny, frame_count } => {
            &&& header::has_fixed_part(file)
            &&& !header::dims_told(file)
            &&& nx == bytes::field(file, 28, 4)
            &&& ny == bytes::field(file, 32, 4)
            &&& frame_count == header::count_of(file)
        },
        DecodeError::BadStep { step_lon, step_lat } => {
            &&& header::has_fixed_part(file)
            &&& header::dims_told(file)
            &&& !header::steps_told(file)
            &&& step_lon == header::step_lon_of(file)
            &&& step_lat == header::step_lat_of(file)
        },
        DecodeError::Io(e) => {
            &&& is_eof(e)
            &&& {
                ||| file.len() < 44
                ||| header::signed_file(file) && (header::version_of(file) == 2 || header::version_of(
                    file,
                ) == 3) && file.len() < 60
                ||| header::has_fixed_part(file) && header::dims_told(file) && header::steps_told(file)
                    && file.len() < header::header_len(file)
            }
        },
        _ => false,
    }
}

} // verus!
