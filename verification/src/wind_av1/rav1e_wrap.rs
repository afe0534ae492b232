//! The AV1 encoder.
use crate::text;
use rav1e::prelude::ChromaSampling;
use rav1e::prelude::PixelRange;
use rav1e::prelude::Rational;
use rav1e::EncoderStatus;
use std::sync::Arc;
use vstd::prelude::*;
use vstd::string::*;

verus! {

/// An encoder with the frames that it was sent and has not given out yet: a
/// `rav1e::Context`.
#[verifier::external_body]
pub struct Av1Encoder {
    ctx: rav1e::Context<u16>,
}

/// The frames that an encoder was sent: the bytes of the three planes of each.
pub uninterp spec fn sent_to(encoder: Av1Encoder) -> Seq<(Seq<u8>, Seq<u8>, Seq<u8>)>;

/// The packets that were taken from an encoder.
pub uninterp spec fn taken_from(encoder: Av1Encoder) -> Seq<Seq<u8>>;

/// What an encoder was made with: the width and height of its frames, its base
/// quantizer, its speed preset, the bits of a pixel, the sampling of its planes, whether
/// pixels take their full range, and the two parts of its time base.
pub uninterp spec fn made_with(encoder: Av1Encoder) -> Seq<int>;

/// Whether an encoder was told that it was sent all frames.
pub uninterp spec fn ended(encoder: Av1Encoder) -> bool;

/// Whether an encoder, when last asked for a packet, said that it has none before it is
/// sent more, or that it has given out all.
pub uninterp spec fn emptied(encoder: Av1Encoder) -> bool;

/// How many frames, shown or not, an encoder has set up and not encoded yet.
pub uninterp spec fn steps_left(encoder: Av1Encoder) -> nat;

/// Whether a length is one that frames can have.
pub open spec fn encodable(n: int) -> bool {
    16 <= n <= 65_535
}

/// What an encoder is made with: 10-bit pixels of full range in three planes of equal
/// size, 4:4:4, and a time base of 1/1.
pub open spec fn settings(width: usize, height: usize, quantizer: u8, speed: u8) -> Seq<int> {
    seq![width as int, height as int, quantizer as int, speed as int, 10, 444, 1, 1, 1]
}

/// How many frames an encoder accepts before it is told that it was sent all.
pub const FRAME_LIMIT: usize = 0x7FFF_FFFE;

/// Whether an encoder says of itself that there is no packet now.
pub open spec fn no_packet(s: EncodeStatus) -> bool {
    s is NeedMoreData || s is LimitReached || s is Encoded
}

/// Whether all pixels of a plane, two bytes each, the lower first, fit in ten bits.
pub open spec fn ten_bits(plane: Seq<u8>) -> bool {
    forall|k: int| 0 <= k && 2 * k + 1 < plane.len() ==> #[trigger] plane[2 * k + 1] < 4
}

/// Why an encoder cannot be made.
#[derive(Clone, Debug)]
pub enum ConfigError {
    InvalidWidth(usize),
    InvalidHeight(usize),
    /// Any other reason, in words.
    Other(String),
}

impl ConfigError {
    /// The reason in words.
    pub open spec fn words(&self) -> Seq<char> {
        match self {
            ConfigError::InvalidWidth(w) => "InvalidWidth("@ + text::decimal(*w as nat) + ")"@,
            ConfigError::InvalidHeight(h) => "InvalidHeight("@ + text::decimal(*h as nat) + ")"@,
            ConfigError::Other(s) => s@,
        }
    }

    /// Appends the reason in words.
    pub fn push_words(&self, out: &mut String)
        ensures
            final(out)@ == old(out)@ + self.words(),
    {
        let ghost before = out@;
        match self {
            ConfigError::InvalidWidth(w) => {
                out.append("InvalidWidth(");
                text::push_decimal(out, *w as u64);
                out.append(")");
                assert(out@ =~= before + self.words());
            },
            ConfigError::InvalidHeight(h) => {
                out.append("InvalidHeight(");
                text::push_decimal(out, *h as u64);
                out.append(")");
                assert(out@ =~= before + self.words());
            },
            ConfigError::Other(s) => {
                out.append(s.as_str());
            },
        }
    }
}

/// What an encoder says instead of giving a packet.
#[derive(Clone, Copy, Debug, PartialEq, Eq, Structural)]
pub enum EncodeStatus {
    NeedMoreData,
    EnoughData,
    LimitReached,
    Encoded,
    Failure,
    NotReady,
}

impl EncodeStatus {
    /// Its name.
    pub open spec fn words(self) -> Seq<char> {
        match self {
            EncodeStatus::NeedMoreData => "NeedMoreData"@,
            EncodeStatus::EnoughData => "EnoughData"@,
            EncodeStatus::LimitReached => "LimitReached"@,
            EncodeStatus::Encoded => "Encoded"@,
            EncodeStatus::Failure => "Failure"@,
            EncodeStatus::NotReady => "NotReady"@,
        }
    }

    /// Its name.
    pub fn name(self) -> (s: &'static str)
        ensures
            s@ == self.words(),
    {
        match self {
            EncodeStatus::NeedMoreData => "NeedMoreData",
            EncodeStatus::EnoughData => "EnoughData",
            EncodeStatus::LimitReached => "LimitReached",
            EncodeStatus::Encoded => "Encoded",
            EncodeStatus::Failure => "Failure",
            EncodeStatus::NotReady => "NotReady",
        }
    }
}

/// Makes an encoder for frames of three planes of equal size with 10-bit pixels.
///
/// This is `rav1e::EncoderConfig::with_speed_preset`, with the size, depth,
/// sampling, pixel range, quantizer and time base set, and
/// `rav1e::Config::new_context`. It is taken to accept widths and heights from 16 to
/// 65535 and to name the first of the two that is not, and to give an encoder that
/// was sent nothing and not told that it was sent all.
#[verifier::external_body]
pub(crate) fn open_encoder(width: usize, height: usize, quantizer: u8, speed: u8) -> (r:
    Result<Av1Encoder, ConfigError>)
    ensures
        r is Ok <==> (encodable(width as int) && encodable(height as int)),
        r matches Ok(encoder) ==> sent_to(encoder).len() == 0,
        r matches Ok(encoder) ==> taken_from(encoder).len() == 0,
        r matches Ok(encoder) ==> !ended(encoder),
        r matches Ok(encoder) ==> made_with(encoder) == settings(width, height, quantizer, speed),
        r matches Err(e) ==> (!encodable(width as int) ==> e == ConfigError::InvalidWidth(width)),
        r matches Err(e) ==> (encodable(width as int) ==> e == ConfigError::InvalidHeight(height)),
{
    let mut enc = rav1e::EncoderConfig::with_speed_preset(speed);
    (enc.width, enc.height, enc.bit_depth) = (width, height, 10);
    enc.chroma_sampling = ChromaSampling::Cs444;
    enc.pixel_range = PixelRange::Full;
    enc.quantizer = quantizer as usize;
    enc.time_base = Rational { num: 1, den: 1 };
    match rav1e::Config::new().with_encoder_config(enc).new_context() {
        Ok(ctx) => Ok(Av1Encoder { ctx }),
        Err(rav1e::InvalidConfig::InvalidWidth(w)) => Err(ConfigError::InvalidWidth(w)),
        Err(rav1e::InvalidConfig::InvalidHeight(h)) => Err(ConfigError::InvalidHeight(h)),
        Err(e) => Err(ConfigError::Other(format!("{e:?}"))),
    }
}

/// Sends a frame to an encoder: the bytes of its three planes, two for each pixel,
/// the lower first.
///
/// This is `rav1e::Context::new_frame`, `copy_from_raw_u8` on each plane of the
/// frame, and `rav1e::Context::send_frame`. A frame that is accepted is taken to
/// stand behind those sent before, and one that is not to leave them as they were.
/// Frames are taken to be accepted until the encoder is told that it was sent all, as
/// long as there are fewer than the rate control can count.
#[verifier::external_body]
pub(crate) fn send_planes(encoder: &mut Av1Encoder, stride: usize, y: &[u8], cb: &[u8], cr: &[u8]) -> (r:
    Result<(), EncodeStatus>)
    requires
        made_with(*old(encoder)).len() == 9,
        encodable(made_with(*old(encoder))[0]),
        encodable(made_with(*old(encoder))[1]),
        stride == 2 * made_with(*old(encoder))[0],
        y@.len() == stride * made_with(*old(encoder))[1],
        cb@.len() == y@.len(),
        cr@.len() == y@.len(),
        ten_bits(y@),
        ten_bits(cb@),
        ten_bits(cr@),
    ensures
        made_with(*final(encoder)) == made_with(*old(encoder)),
        taken_from(*final(encoder)) == taken_from(*old(encoder)),
        r is Ok ==> sent_to(*final(encoder)) == sent_to(*old(encoder)).push((y@, cb@, cr@)),
        r is Err ==> sent_to(*final(encoder)) == sent_to(*old(encoder)),
        !ended(*old(encoder)) && sent_to(*old(encoder)).len() < FRAME_LIMIT ==> r is Ok && !ended(
            *final(encoder),
        ),
{
    let mut frame = encoder.ctx.new_frame();
    frame.planes[0].copy_from_raw_u8(y, stride, 2);
    frame.planes[1].copy_from_raw_u8(cb, stride, 2);
    frame.planes[2].copy_from_raw_u8(cr, stride, 2);
    match encoder.ctx.send_frame(Arc::new(frame)) {
        Ok(_) => Ok(()),
        Err(EncoderStatus::NeedMoreData) => Err(EncodeStatus::NeedMoreData),
        Err(EncoderStatus::EnoughData) => Err(EncodeStatus::EnoughData),
        Err(EncoderStatus::LimitReached) => Err(EncodeStatus::LimitReached),
        Err(EncoderStatus::Encoded) => Err(EncodeStatus::Encoded),
        Err(EncoderStatus::Failure) => Err(EncodeStatus::Failure),
        Err(EncoderStatus::NotReady) => Err(EncodeStatus::NotReady),
    }
}

/// Tells an encoder that it was sent all frames.
///
/// This is `rav1e::Context::flush`. It is taken to send and take nothing.
#[verifier::external_body]
pub(crate) fn flush(encoder: &mut Av1Encoder)
    ensures
        made_with(*final(encoder)) == made_with(*old(encoder)),
        taken_from(*final(encoder)) == taken_from(*old(encoder)),
        sent_to(*final(encoder)) == sent_to(*old(encoder)),
        ended(*final(encoder)),
{
    encoder.ctx.flush()
}

/// Takes the next packet from an encoder.
///
/// This is `rav1e::Context::receive_packet` and the data of the packet, or the status
/// that it returns instead. `NeedMoreData` and `LimitReached` are taken to be what it
/// says where there is no packet to be had, and `Encoded` where it got one step nearer
/// to one; of each frame that it was sent it takes finitely many steps. An encoder with
/// a single pass is taken to say nothing else. Which bytes a packet has and when there
/// is one is not stated. The coding of blocks that this call sets off is taken to come to
/// an end without a panic for all planes of the size that the encoder was made with.
#[verifier::external_body]
pub(crate) fn receive(encoder: &mut Av1Encoder) -> (r: Result<Vec<u8>, EncodeStatus>)
    ensures
        made_with(*final(encoder)) == made_with(*old(encoder)),
        sent_to(*final(encoder)) == sent_to(*old(encoder)),
        ended(*final(encoder)) == ended(*old(encoder)),
        r matches Ok(packet) ==> taken_from(*final(encoder)) == taken_from(*old(encoder)).push(packet@),
        r is Err ==> taken_from(*final(encoder)) == taken_from(*old(encoder)),
        r matches Err(s) ==> no_packet(s),
        r is Ok || (r matches Err(s) && s is Encoded) ==> steps_left(*final(encoder)) < steps_left(
            *old(encoder),
        ),
        emptied(*final(encoder)) <==> (r matches Err(s) && (s == EncodeStatus::NeedMoreData || s
            == EncodeStatus::LimitReached)),
{
    match encoder.ctx.receive_packet() {
        Ok(packet) => Ok(packet.data),
        Err(EncoderStatus::NeedMoreData) => Err(EncodeStatus::NeedMoreData),
        Err(EncoderStatus::EnoughData) => Err(EncodeStatus::EnoughData),
        Err(EncoderStatus::LimitReached) => Err(EncodeStatus::LimitReached),
        Err(EncoderStatus::Encoded) => Err(EncodeStatus::Encoded),
        Err(EncoderStatus::Failure) => Err(EncodeStatus::Failure),
        Err(EncoderStatus::NotReady) => Err(EncodeStatus::NotReady),
    }
}

} // verus!
