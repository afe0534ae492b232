//! A small container for AV1 packets.
//!
//! A 32-byte file header is followed by frames, each a 12-byte header with the
//! frame's size and time stamp, and the frame's bytes. All integers are
//! little-endian.
//!
//! | File header | Bytes | Field |
//! |------------:|------:|-------|
//! | 0 | 4 | the signature `DKIF` |
//! | 4 | 2 | version, 0 |
//! | 6 | 2 | length of this header, 32 |
//! | 8 | 4 | the codec, `AV01` |
//! | 12 | 2 | width |
//! | 14 | 2 | height |
//! | 16 | 4 | frame rate, numerator |
//! | 20 | 4 | frame rate, denominator |
//! | 24 | 4 | number of frames |
//! | 28 | 4 | not used |
use vstd::prelude::*;
use vstd::string::*;
use crate::bytes;
use crate::io_error;
use crate::io_error::IoError;
use crate::io_error::IoErrorKind;
use crate::text;

verus! {

/// The signature that a file begins with: `DKIF`.
pub const FILE_MAGIC: [u8; 4] = [0x44, 0x4B, 0x49, 0x46];

/// The length of the file header.
pub const FILE_HEADER_BYTES: usize = 32;

/// The length of a frame header.
pub const FRAME_HEADER_BYTES: usize = 12;

/// The codec that the file header names: `AV01`.
pub const AV1_FOURCC: [u8; 4] = [0x41, 0x56, 0x30, 0x31];

/// A file header.
pub open spec fn header_bytes(
    width: u16,
    height: u16,
    fps_num: u32,
    fps_den: u32,
    frame_count: u32,
) -> Seq<u8> {
    FILE_MAGIC@ + bytes::le_bytes(0, 2) + bytes::le_bytes(32, 2) + AV1_FOURCC@ + bytes::le_bytes(
        width as nat,
        2,
    ) + bytes::le_bytes(height as nat, 2) + bytes::le_bytes(fps_num as nat, 4) + bytes::le_bytes(
        fps_den as nat,
        4,
    ) + bytes::le_bytes(frame_count as nat, 4) + bytes::le_bytes(0, 4)
}

/// A frame with its header.
pub open spec fn frame_bytes(body: Seq<u8>, pts: u64) -> Seq<u8> {
    bytes::le_bytes(body.len(), 4) + bytes::le_bytes(pts as nat, 8) + body
}

/// Frames one after the other, stamped from `first` on.
pub open spec fn frames_bytes(bodies: Seq<Seq<u8>>, first: u64) -> Seq<u8>
    decreases bodies.len(),
{
    if bodies.len() == 0 {
        Seq::<u8>::empty()
    } else {
        frames_bytes(bodies.drop_last(), first) + frame_bytes(
            bodies.last(),
            (first + bodies.len() - 1) as u64,
        )
    }
}

/// What the bytes after a file header begin with.
pub enum NextFrame {
    /// Nothing: there are no more bytes.
    End,
    /// A frame: its bytes, and the number of bytes that it takes with its header.
    Frame { body: Seq<u8>, taken: int },
    /// Less than a frame.
    Cut,
}

/// What `rest` begins with.
pub open spec fn next_frame(rest: Seq<u8>) -> NextFrame {
    if rest.len() == 0 {
        NextFrame::End
    } else if rest.len() < 12 {
        NextFrame::Cut
    } else {
        let size = bytes::le_value(rest.subrange(0, 4)) as int;
        if rest.len() < 12 + size {
            NextFrame::Cut
        } else {
            NextFrame::Frame { body: rest.subrange(12, 12 + size), taken: 12 + size }
        }
    }
}

/// The text for a file that does not begin with the signature.
pub open spec fn bad_magic_text(got: Seq<u8>) -> Seq<char> {
    "IVF: missing DKIF magic (got ["@ + text::hex2(got[0]) + ", "@ + text::hex2(got[1]) + ", "@
        + text::hex2(got[2]) + ", "@ + text::hex2(got[3]) + "])"@
}

/// Appends a file header.
pub fn write_file_header(
    out: &mut Vec<u8>,
    width: u16,
    height: u16,
    fps_num: u32,
    fps_den: u32,
    frame_count: u32,
)
    ensures
        final(out)@ == old(out)@ + header_bytes(width, height, fps_num, fps_den, frame_count),
{
    let ghost before = out@;
    let magic: [u8; 4] = FILE_MAGIC;
    let fourcc: [u8; 4] = AV1_FOURCC;
    bytes::push_all(out, magic.as_slice());
    bytes::push_le(out, 0, 2);
    bytes::push_le(out, 32, 2);
    bytes::push_all(out, fourcc.as_slice());
    bytes::push_le(out, width as u64, 2);
    bytes::push_le(out, height as u64, 2);
    bytes::push_le(out, fps_num as u64, 4);
    bytes::push_le(out, fps_den as u64, 4);
    bytes::push_le(out, frame_count as u64, 4);
    bytes::push_le(out, 0, 4);
    assert(out@ =~= before + header_bytes(width, height, fps_num, fps_den, frame_count));
}

/// Appends a frame with its header, unless its size does not fit the header.
pub fn write_frame(out: &mut Vec<u8>, body: &[u8], pts: u64) -> (r: Result<(), IoError>)
    ensures
        r is Ok <==> body@.len() <= u32::MAX,
        r is Ok ==> final(out)@ == old(out)@ + frame_bytes(body@, pts),
        r matches Err(e) ==> {
            &&& final(out)@ == old(out)@
            &&& e.kind == IoErrorKind::InvalidInput
            &&& e.message@ == "IVF frame > 4 GiB"@
        },
{
    let ghost before = out@;
    if body.len() as u64 > 0xFFFF_FFFF {
        return Err(
            IoError { kind: IoErrorKind::InvalidInput, message: "IVF frame > 4 GiB".to_owned() },
        );
    }
    bytes::push_le(out, body.len() as u64, 4);
    bytes::push_le(out, pts, 8);
    bytes::push_all(out, body);
    assert(out@ =~= before + frame_bytes(body@, pts));
    Ok(())
}

/// The failure of reading bytes that end too early.
fn cut_short() -> (e: IoError)
    ensures
        e.kind == IoErrorKind::InvalidData,
        e.message@ == io_error::eof_text(),
{
    IoError { kind: IoErrorKind::InvalidData, message: IoError::unexpected_eof().message }
}

/// Reads frames one at a time.
pub struct IvfReader<'a> {
    bytes: &'a [u8],
    at: usize,
}

impl<'a> IvfReader<'a> {
    /// The bytes that have not been read.
    pub closed spec fn rest(&self) -> Seq<u8> {
        self.bytes@.skip(self.at as int)
    }

    /// Whether the reader stands within its bytes.
    pub closed spec fn wf(&self) -> bool {
        self.at <= self.bytes@.len()
    }

    /// Checks the file header and stands before the first frame.
    pub fn open(bytes: &'a [u8]) -> (r: Result<IvfReader<'a>, IoError>)
        ensures
            r is Ok <==> bytes@.len() >= 32 && bytes@.take(4) == FILE_MAGIC@,
            r matches Ok(reader) ==> reader.wf() && reader.rest() == bytes@.skip(32),
            r matches Err(e) ==> if bytes@.len() < 32 {
                e.kind == IoErrorKind::InvalidData && e.message@ == io_error::eof_text()
            } else {
                e.kind == IoErrorKind::InvalidData && e.message@ == bad_magic_text(bytes@)
            },
    {
        if bytes.len() < FILE_HEADER_BYTES {
            return Err(cut_short());
        }
        let magic: [u8; 4] = FILE_MAGIC;
        assert(bytes@.subrange(0, 4) =~= bytes@.take(4));
        if !bytes::holds_at(bytes, 0, magic.as_slice()) {
            let mut message: String = "IVF: missing DKIF magic (got [".to_owned();
            text::push_hex2(&mut message, bytes[0]);
            message.append(", ");
            text::push_hex2(&mut message, bytes[1]);
            message.append(", ");
            text::push_hex2(&mut message, bytes[2]);
            message.append(", ");
            text::push_hex2(&mut message, bytes[3]);
            message.append("])");
            return Err(IoError { kind: IoErrorKind::InvalidData, message });
        }
        Ok(IvfReader { bytes, at: FILE_HEADER_BYTES })
    }

    /// The bytes of the next frame, or `None` at the end. Where the bytes end
    /// within a frame, the reader stays where it is.
    pub fn read_frame(&mut self) -> (r: Result<Option<Vec<u8>>, IoError>)
        requires
            old(self).wf(),
        ensures
            final(self).wf(),
            match next_frame(old(self).rest()) {
                NextFrame::End => r matches Ok(None) && final(self).rest() == old(self).rest(),
                NextFrame::Frame { body, taken } => {
                    &&& r matches Ok(Some(b)) && b@ == body
                    &&& final(self).rest() == old(self).rest().skip(taken)
                },
                NextFrame::Cut => {
                    &&& r matches Err(e) && e.kind == IoErrorKind::InvalidData && e.message@
                        == io_error::eof_text()
                    &&& final(self).rest() == old(self).rest()
                },
            },
    {
        let len: usize = self.bytes.len();
        let at: usize = self.at;
        let ghost rest = self.rest();
        if at == len {
            return Ok(None);
        }
        if len - at < FRAME_HEADER_BYTES {
            return Err(cut_short());
        }
        let size: usize = bytes::read_u32_le(self.bytes, at) as usize;
        assert(rest.subrange(0, 4) =~= self.bytes@.subrange(at as int, at + 4));
        if len - at - FRAME_HEADER_BYTES < size {
            return Err(cut_short());
        }
        let from: usize = at + FRAME_HEADER_BYTES;
        let mut body: Vec<u8> = Vec::new();
        let mut k: usize = 0;
        while k < size
            invariant
                k <= size,
                from + size <= len,
                len == self.bytes@.len(),
                body@ == self.bytes@.subrange(from as int, from + k),
            decreases size - k,
        {
            body.push(self.bytes[from + k]);
            assert(body@ =~= self.bytes@.subrange(from as int, from + k + 1));
            k += 1;
        }
        self.at = from + size;
        proof {
            assert(rest.subrange(12, 12 + size) =~= self.bytes@.subrange(from as int, from + size));
            assert(self.rest() =~= rest.skip(12 + size));
        }
        Ok(Some(body))
    }
}

/// A written header has its length and its signature, so that reading goes on
/// right after it.
pub proof fn law_header_reads_back(
    width: u16,
    height: u16,
    fps_num: u32,
    fps_den: u32,
    frame_count: u32,
    tail: Seq<u8>,
)
    ensures
        ({
            let file = header_bytes(width, height, fps_num, fps_den, frame_count) + tail;
            &&& file.len() >= 32
            &&& file.take(4) == FILE_MAGIC@
            &&& file.skip(32) == tail
        }),
{
    bytes::lemma_le_bytes_len(0, 2);
    bytes::lemma_le_bytes_len(32, 2);
    bytes::lemma_le_bytes_len(width as nat, 2);
    bytes::lemma_le_bytes_len(height as nat, 2);
    bytes::lemma_le_bytes_len(fps_num as nat, 4);
    bytes::lemma_le_bytes_len(fps_den as nat, 4);
    bytes::lemma_le_bytes_len(frame_count as nat, 4);
    bytes::lemma_le_bytes_len(0, 4);
    let file = header_bytes(width, height, fps_num, fps_den, frame_count) + tail;
    assert(file.take(4) =~= FILE_MAGIC@);
    assert(file.skip(32) =~= tail);
}

/// A written frame is the next frame read, and reading goes on right after it.
pub proof fn law_frame_reads_back(body: Seq<u8>, pts: u64, tail: Seq<u8>)
    requires
        body.len() <= u32::MAX,
    ensures
        next_frame(frame_bytes(body, pts) + tail) == (NextFrame::Frame {
            body,
            taken: 12 + body.len() as int,
        }),
        (frame_bytes(body, pts) + tail).skip(12 + body.len() as int) == tail,
{
    bytes::lemma_pow256();
    bytes::law_value_of_bytes(body.len(), 4);
    bytes::lemma_le_bytes_len(pts as nat, 8);
    let rest = frame_bytes(body, pts) + tail;
    assert(rest.subrange(0, 4) =~= bytes::le_bytes(body.len(), 4));
    assert(rest.subrange(12, 12 + body.len() as int) =~= body);
    assert(rest.skip(12 + body.len() as int) =~= tail);
}

/// The frames that can be read from `rest` until its end, or `None` where it ends
/// within a frame.
pub open spec fn frames_in(rest: Seq<u8>) -> Option<Seq<Seq<u8>>>
    decreases rest.len(),
{
    match next_frame(rest) {
        NextFrame::End => Some(Seq::<Seq<u8>>::empty()),
        NextFrame::Frame { body, taken } => match frames_in(rest.skip(taken)) {
            Some(more) => Some(seq![body] + more),
            None => None,
        },
        NextFrame::Cut => None,
    }
}

/// Frames written one after the other are read back in order.
pub proof fn law_frames_read_back(bodies: Seq<Seq<u8>>, first: u64)
    requires
        forall|k: int| 0 <= k < bodies.len() ==> (#[trigger] bodies[k]).len() <= u32::MAX,
    ensures
        frames_in(frames_bytes(bodies, first)) == Some(bodies),
{
    lemma_frames_then(bodies, first, Seq::<u8>::empty());
    assert(frames_bytes(bodies, first) + Seq::<u8>::empty() =~= frames_bytes(bodies, first));
    assert(bodies + Seq::<Seq<u8>>::empty() =~= bodies);
}

/// Written frames are read before what follows them.
proof fn lemma_frames_then(bodies: Seq<Seq<u8>>, first: u64, tail: Seq<u8>)
    requires
        forall|k: int| 0 <= k < bodies.len() ==> (#[trigger] bodies[k]).len() <= u32::MAX,
    ensures
        frames_in(frames_bytes(bodies, first) + tail) == (match frames_in(tail) {
            Some(more) => Some(bodies + more),
            None => None,
        }),
    decreases bodies.len(),
{
    if bodies.len() == 0 {
        assert(frames_bytes(bodies, first) + tail =~= tail);
        if frames_in(tail) is Some {
            assert(bodies + frames_in(tail)->Some_0 =~= frames_in(tail)->Some_0);
        }
    } else {
        let front = bodies.drop_last();
        let last = bodies.last();
        assert(bodies[bodies.len() - 1].len() <= u32::MAX);
        let pts = (first + bodies.len() - 1) as u64;
        let rest = frame_bytes(last, pts) + tail;
        assert(frames_bytes(bodies, first) + tail =~= frames_bytes(front, first) + rest);
        assert forall|k: int| 0 <= k < front.len() implies (#[trigger] front[k]).len() <= u32::MAX by {
            assert(front[k] == bodies[k]);
        }
        lemma_frames_then(front, first, rest);
        law_frame_reads_back(last, pts, tail);
        if frames_in(tail) is Some {
            let more = frames_in(tail)->Some_0;
            assert(front + (seq![last] + more) =~= bodies + more);
        }
    }
}

} // verus!
