//! What an AV1 decoder gives, and how it fails.
use crate::text;
use vstd::prelude::*;
use vstd::string::*;

verus! {

/// The depth of the pixels that are written.
pub const EXPECTED_BPC: i32 = 10;

/// The number of the layout with three planes of equal size.
pub const PIXEL_LAYOUT_I444: u32 = 3;

/// Why a stream cannot be decoded.
#[derive(Clone, Copy, Debug, PartialEq, Eq, Structural)]
pub enum DecoderError {
    /// The decoder could not be opened.
    Open(i32),
    /// The decoder refused a packet.
    SendData(i32),
    /// The decoder could not give a picture.
    GetPicture(i32),
    /// There was no memory for a packet.
    DataAllocFailed,
    /// A picture is not of the form that is written.
    UnexpectedFormat { bpc: i32, layout: u32 },
}

impl DecoderError {
    /// The error in words.
    pub open spec fn words(self) -> Seq<char> {
        match self {
            DecoderError::Open(c) => "dav1d_open failed: errno "@ + text::signed_decimal(c as int),
            DecoderError::SendData(c) => "dav1d_send_data failed: errno "@ + text::signed_decimal(
                c as int,
            ),
            DecoderError::GetPicture(c) => "dav1d_get_picture failed: errno "@ + text::signed_decimal(
                c as int,
            ),
            DecoderError::DataAllocFailed => "dav1d_data_create returned null"@,
            DecoderError::UnexpectedFormat { bpc, layout } =>
                "decoder produced unexpected pixel format (bpc="@ + text::signed_decimal(bpc as int)
                + ", layout="@ + text::decimal(layout as nat) + ")"@,
        }
    }

    /// The error in words.
    pub fn message(self) -> (s: String)
        ensures
            s@ == self.words(),
    {
        match self {
            DecoderError::Open(c) => {
                let mut s: String = "dav1d_open failed: errno ".to_owned();
                text::push_signed(&mut s, c as i64);
                s
            },
            DecoderError::SendData(c) => {
                let mut s: String = "dav1d_send_data failed: errno ".to_owned();
                text::push_signed(&mut s, c as i64);
                s
            },
            DecoderError::GetPicture(c) => {
                let mut s: String = "dav1d_get_picture failed: errno ".to_owned();
                text::push_signed(&mut s, c as i64);
                s
            },
            DecoderError::DataAllocFailed => "dav1d_data_create returned null".to_owned(),
            DecoderError::UnexpectedFormat { bpc, layout } => {
                let mut s: String = "decoder produced unexpected pixel format (bpc=".to_owned();
                text::push_signed(&mut s, bpc as i64);
                s.append(", layout=");
                text::push_decimal(&mut s, layout as u64);
                s.append(")");
                s
            },
        }
    }
}

/// A picture: the number of its bits per pixel and of its layout, its size, and the
/// pixels of its first two planes, row by row.
pub struct DecodedPicture {
    pub bpc: i32,
    pub layout: u32,
    pub width: usize,
    pub height: usize,
    pub y: Vec<u16>,
    pub cb: Vec<u16>,
}

impl DecodedPicture {
    /// Whether both planes have a pixel for each place.
    pub open spec fn wf(&self) -> bool {
        self.y@.len() == self.width * self.height && self.cb@.len() == self.y@.len()
    }

    /// Whether the picture is of the form that is written.
    pub open spec fn as_written(&self) -> bool {
        self.bpc == EXPECTED_BPC && self.layout == PIXEL_LAYOUT_I444
    }

    /// The width.
    pub fn width(&self) -> (w: usize)
        ensures
            w == self.width,
    {
        self.width
    }

    /// The height.
    pub fn height(&self) -> (h: usize)
        ensures
            h == self.height,
    {
        self.height
    }

    /// Whether the picture is of the form that is written.
    pub fn check_format(&self) -> (r: Result<(), DecoderError>)
        ensures
            r is Ok <==> self.as_written(),
            r matches Err(e) ==> e == (DecoderError::UnexpectedFormat {
                bpc: self.bpc,
                layout: self.layout,
            }),
    {
        if self.bpc == EXPECTED_BPC && self.layout == PIXEL_LAYOUT_I444 {
            Ok(())
        } else {
            Err(DecoderError::UnexpectedFormat { bpc: self.bpc, layout: self.layout })
        }
    }
}

/// What an answer of the decoder means: it succeeded, it wants to be asked again
/// after something else, or it failed.
#[derive(Clone, Copy, Debug, PartialEq, Eq, Structural)]
pub enum Reply {
    Done,
    Again,
    Failed(i32),
}

/// What a code of the decoder means. `eagain` is the system's code for asking again.
pub fn classify_code(code: i32, eagain: i32) -> (r: Reply)
    requires
        eagain > i32::MIN,
    ensures
        r == (if code == 0 {
            Reply::Done
        } else if code == -eagain {
            Reply::Again
        } else {
            Reply::Failed(code)
        }),
{
    if code == 0 {
        Reply::Done
    } else if code == -eagain {
        Reply::Again
    } else {
        Reply::Failed(code)
    }
}

} // verus!
