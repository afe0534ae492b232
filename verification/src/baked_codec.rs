//! A file format for resampled wind.
//!
//! A header is followed by the winds of the grid in their order, compressed with
//! zstd. All numbers are little-endian; a wind is its eastward and its northward
//! part, eight bytes each.
//!
//! | At | Bytes | Field |
//! |---:|------:|-------|
//! | 0 | 8 | the signature `WBAKED01` |
//! | 8 | 4 | version, 1 |
//! | 12 | 8 | number of columns |
//! | 20 | 8 | number of rows |
//! | 28 | 8 | number of times |
//! | 36 | 8 | longitude of the first column |
//! | 44 | 8 | latitude of the first row |
//! | 52 | 8 | degrees between cells |
//! | 60 | 8 | seconds between times |
//! | 68 | 8 | what coordinates are divided by |
//! | 76 | | the compressed winds |
use crate::bytes;
use crate::given;
use crate::io_error;
use crate::io_error::{IoError, IoErrorKind};
use crate::number::Real;
use crate::text;
use crate::wind_map::baked::{BakedWindMap, Wind};
use std::io::Read;
use std::io::Write;
use vstd::prelude::*;
use vstd::string::*;

verus! {

/// The signature that a file begins with: `WBAKED01`.
pub const MAGIC: [u8; 8] = [0x57, 0x42, 0x41, 0x4B, 0x45, 0x44, 0x30, 0x31];

/// The version of the format.
pub const VERSION: u32 = 1;

/// How hard to compress.
pub const ZSTD_LEVEL: i32 = 11;

/// The length of the header.
pub const HEADER_BYTES: usize = 76;

/// The length of a wind.
pub const BYTES_PER_CELL: usize = 16;

/// Why a map cannot be written.
#[derive(Debug)]
pub enum EncodeError {
    /// The winds could not be compressed.
    Io(IoError),
}

impl EncodeError {
    /// The error in words.
    pub open spec fn words(&self) -> Seq<char> {
        match self {
            EncodeError::Io(e) => "I/O error: "@ + e.message@,
        }
    }

    /// The error in words.
    pub fn message(&self) -> (s: String)
        ensures
            s@ == self.words(),
    {
        match self {
            EncodeError::Io(e) => {
                let mut s: String = "I/O error: ".to_owned();
                s.append(e.message.as_str());
                s
            },
        }
    }
}

/// Why a file cannot be read.
#[derive(Debug)]
pub enum DecodeError {
    /// The file does not begin with the signature.
    BadMagic,
    /// The file is of another version.
    UnsupportedVersion(u32),
    /// There cannot be so many winds.
    BadDimensions { nx: u64, ny: u64, nt: u64 },
    /// The file ends too early, or its winds cannot be decompressed.
    Io(IoError),
}

impl DecodeError {
    /// The error in words.
    pub open spec fn words(&self) -> Seq<char> {
        match self {
            DecodeError::BadMagic => "not a bywind baked-cache file (bad magic)"@,
            DecodeError::UnsupportedVersion(v) => "unsupported baked-cache version: "@ + text::decimal(
                *v as nat,
            ),
            DecodeError::BadDimensions { nx, ny, nt } => "invalid grid dimensions: nx="@
                + text::decimal(*nx as nat) + ", ny="@ + text::decimal(*ny as nat) + ", nt="@
                + text::decimal(*nt as nat),
            DecodeError::Io(e) => "I/O error: "@ + e.message@,
        }
    }

    /// The error in words.
    pub fn message(&self) -> (s: String)
        ensures
            s@ == self.words(),
    {
        match self {
            DecodeError::BadMagic => "not a bywind baked-cache file (bad magic)".to_owned(),
            DecodeError::UnsupportedVersion(v) => {
                let mut s: String = "unsupported baked-cache version: ".to_owned();
                text::push_decimal(&mut s, *v as u64);
                s
            },
            DecodeError::BadDimensions { nx, ny, nt } => {
                let mut s: String = "invalid grid dimensions: nx=".to_owned();
                text::push_decimal(&mut s, *nx);
                s.append(", ny=");
                text::push_decimal(&mut s, *ny);
                s.append(", nt=");
                text::push_decimal(&mut s, *nt);
                s
            },
            DecodeError::Io(e) => {
                let mut s: String = "I/O error: ".to_owned();
                s.append(e.message.as_str());
                s
            },
        }
    }
}

/// The first `n` bytes of what compressed bytes stand for, or all where there are
/// fewer; `None` where they cannot be decompressed so far.
pub uninterp spec fn zstd_first(compressed: Seq<u8>, n: nat) -> Option<Seq<u8>>;

/// Whether compressed bytes stand for `plain`, as far as any part of it from the
/// front on is asked for.
pub open spec fn stands_for(compressed: Seq<u8>, plain: Seq<u8>) -> bool {
    forall|n: nat| n <= plain.len() ==> #[trigger] zstd_first(compressed, n) == Some(plain.take(n as int))
}

/// Compresses bytes, with up to `workers` threads.
///
/// This is `zstd::stream::write::Encoder` over a vector: `new` with the level,
/// `multithread` with the number of threads, whose refusal leaves a single thread,
/// `write_all` and `finish`. What comes out is taken to decompress to what went in.
/// Which bytes come out is not stated, nor that it succeeds.
#[verifier::external_body]
fn zstd_compress(plain: &[u8], level: i32, workers: u32) -> (r: Result<Vec<u8>, std::io::Error>)
    ensures
        r matches Ok(c) ==> stands_for(c@, plain@),
{
    let mut encoder = zstd::stream::write::Encoder::new(Vec::new(), level)?;
    let _ = encoder.multithread(workers);
    encoder.write_all(plain)?;
    encoder.finish()
}

/// The first `n` bytes of what compressed bytes stand for, or all where there are
/// fewer.
///
/// This is `zstd::stream::read::Decoder` over the bytes, `take` with the number and
/// `read_to_end`. It is taken to give the same for the same bytes and number, and no
/// more bytes than asked for. Of an error nothing is stated.
#[verifier::external_body]
fn zstd_decompress(compressed: &[u8], n: usize) -> (r: Result<Vec<u8>, std::io::Error>)
    ensures
        r matches Ok(plain) ==> zstd_first(compressed@, n as nat) == Some(plain@) && plain@.len() <= n,
        r is Err ==> zstd_first(compressed@, n as nat) is None,
{
    let mut plain = Vec::new();
    let decoder = zstd::stream::read::Decoder::new(compressed)?;
    decoder.take(n as u64).read_to_end(&mut plain)?;
    Ok(plain)
}

/// The bytes of a wind.
pub open spec fn wind_bytes(w: Wind) -> Seq<u8> {
    bytes::le_bytes(w.east_mps.bits as nat, 8) + bytes::le_bytes(w.north_mps.bits as nat, 8)
}

/// The bytes of winds.
pub open spec fn grid_bytes(grid: Seq<Wind>) -> Seq<u8>
    decreases grid.len(),
{
    if grid.len() == 0 {
        Seq::empty()
    } else {
        grid_bytes(grid.drop_last()) + wind_bytes(grid.last())
    }
}

/// The header of a map.
pub open spec fn header_bytes(m: BakedWindMap) -> Seq<u8> {
    MAGIC@ + bytes::le_bytes(VERSION as nat, 4) + bytes::le_bytes(m.nx as nat, 8) + bytes::le_bytes(
        m.ny as nat,
        8,
    ) + bytes::le_bytes(m.nt as nat, 8) + bytes::le_bytes(m.x_min.bits as nat, 8) + bytes::le_bytes(
        m.y_min.bits as nat,
        8,
    ) + bytes::le_bytes(m.step.bits as nat, 8) + bytes::le_bytes(m.t_step_seconds.bits as nat, 8)
        + bytes::le_bytes(m.coord_scale.bits as nat, 8)
}

/// Whether a file is the one of a map: a header and compressed winds.
pub open spec fn is_file_of(file: Seq<u8>, m: BakedWindMap) -> bool {
    exists|c: Seq<u8>| file == header_bytes(m) + c && #[trigger] stands_for(c, grid_bytes(m.grid@))
}

/// Whether a file begins with a header that is understood.
pub open spec fn has_header(file: Seq<u8>) -> bool {
    file.len() >= 76 && file.take(8) == MAGIC@ && bytes::field(file, 8, 4) == VERSION
}

/// Whether there can be as many winds as a header tells.
pub open spec fn dims_fit(nx: nat, ny: nat, nt: nat) -> bool {
    &&& nx <= usize::MAX
    &&& ny <= usize::MAX
    &&& nt <= usize::MAX
    &&& nx * ny <= usize::MAX
    &&& nx * ny * nt * 16 <= usize::MAX
}

/// How many winds a header tells of.
pub open spec fn cells_told(file: Seq<u8>) -> nat {
    bytes::field(file, 12, 8) * bytes::field(file, 20, 8) * bytes::field(file, 28, 8)
}

/// Whether a file can be read.
pub open spec fn readable(file: Seq<u8>) -> bool {
    &&& headed(file)
    &&& zstd_first(file.skip(76), cells_told(file) * 16) matches Some(s) && s.len() == cells_told(file)
        * 16
}

/// Whether the header of a file can be read.
pub open spec fn headed(file: Seq<u8>) -> bool {
    has_header(file) && dims_fit(
        bytes::field(file, 12, 8),
        bytes::field(file, 20, 8),
        bytes::field(file, 28, 8),
    )
}

/// Whether a map has the grid that the header of a file tells of.
pub open spec fn shaped_by(file: Seq<u8>, m: BakedWindMap) -> bool {
    &&& m.wf()
    &&& m.nx == bytes::field(file, 12, 8)
    &&& m.ny == bytes::field(file, 20, 8)
    &&& m.nt == bytes::field(file, 28, 8)
    &&& m.x_min.bits == bytes::field(file, 36, 8)
    &&& m.y_min.bits == bytes::field(file, 44, 8)
    &&& m.step.bits == bytes::field(file, 52, 8)
    &&& m.t_step_seconds.bits == bytes::field(file, 60, 8)
    &&& m.coord_scale.bits == bytes::field(file, 68, 8)
}

/// Whether a map is the one that a file tells of.
pub open spec fn told_by(file: Seq<u8>, m: BakedWindMap) -> bool {
    &&& shaped_by(file, m)
    &&& zstd_first(file.skip(76), cells_told(file) * 16) == Some(grid_bytes(m.grid@))
}

/// Whether an error is that a file ends too early.
pub open spec fn ends_early(e: DecodeError) -> bool {
    e matches DecodeError::Io(e) && e.kind == IoErrorKind::UnexpectedEof && e.message@
        == io_error::eof_text()
}

/// The header of a map.
fn write_header(map: &BakedWindMap) -> (out: Vec<u8>)
    ensures
        out@ == header_bytes(*map),
{
    let magic: [u8; 8] = MAGIC;
    let mut out: Vec<u8> = Vec::new();
    bytes::push_all(&mut out, magic.as_slice());
    bytes::push_le(&mut out, VERSION as u64, 4);
    bytes::push_le(&mut out, map.nx as u64, 8);
    bytes::push_le(&mut out, map.ny as u64, 8);
    bytes::push_le(&mut out, map.nt as u64, 8);
    bytes::push_le(&mut out, map.x_min.bits, 8);
    bytes::push_le(&mut out, map.y_min.bits, 8);
    bytes::push_le(&mut out, map.step.bits, 8);
    bytes::push_le(&mut out, map.t_step_seconds.bits, 8);
    bytes::push_le(&mut out, map.coord_scale.bits, 8);
    assert(out@ =~= header_bytes(*map));
    out
}

/// The bytes of the winds of a map.
pub fn plain_winds(map: &BakedWindMap) -> (plain: Vec<u8>)
    ensures
        plain@ == grid_bytes(map.grid@),
{
    let mut plain: Vec<u8> = Vec::new();
    let mut k: usize = 0;
    assert(plain@ =~= grid_bytes(map.grid@.take(0)));
    while k < map.grid.len()
        invariant
            k <= map.grid@.len(),
            plain@ == grid_bytes(map.grid@.take(k as int)),
        decreases map.grid@.len() - k,
    {
        let w: Wind = map.grid[k];
        let ghost before = plain@;
        bytes::push_le(&mut plain, w.east_mps.bits, 8);
        bytes::push_le(&mut plain, w.north_mps.bits, 8);
        proof {
            assert(map.grid@.take(k + 1).drop_last() =~= map.grid@.take(k as int));
            assert(plain@ =~= before + wind_bytes(w));
        }
        k += 1;
    }
    assert(map.grid@.take(k as int) =~= map.grid@);
    plain
}

/// The file of a map out of its compressed winds, unless they could not be compressed.
pub fn framed(map: &BakedWindMap, compressed: Result<Vec<u8>, IoError>) -> (r: Result<
    Vec<u8>,
    EncodeError,
>)
    ensures
        match compressed {
            Ok(c) => r matches Ok(file) && file@ == header_bytes(*map) + c@,
            Err(e) => r == Err::<Vec<u8>, EncodeError>(EncodeError::Io(e)),
        },
{
    match compressed {
        Err(e) => Err(EncodeError::Io(e)),
        Ok(c) => {
            let mut file: Vec<u8> = write_header(map);
            bytes::push_all(&mut file, c.as_slice());
            Ok(file)
        },
    }
}

/// Whether `got` is something that compressing `plain` with up to `workers` threads
/// gives.
pub closed spec fn compressing_gives(
    plain: Seq<u8>,
    workers: u32,
    got: Result<Vec<u8>, std::io::Error>,
) -> bool {
    exists|s: &[u8]|
        s@ == plain && #[trigger] call_ensures(zstd_compress, (s, ZSTD_LEVEL, workers), got)
}

/// Whether `r` is the file of a map where its winds were compressed, and where they were
/// not, the failure that was told of.
pub open spec fn passes_on(
    map: BakedWindMap,
    got: Result<Vec<u8>, std::io::Error>,
    r: Result<Vec<u8>, EncodeError>,
) -> bool {
    match got {
        Ok(c) => r matches Ok(file) && file@ == header_bytes(map) + c@,
        Err(s) => r matches Err(EncodeError::Io(e)) && io_error::tells(e, s),
    }
}

/// The file of a map, compressed with up to `workers` threads. There is one unless the
/// compression of its winds fails, and that failure is told.
pub fn encode(map: &BakedWindMap, workers: u32) -> (r: Result<Vec<u8>, EncodeError>)
    ensures
        r matches Ok(file) ==> is_file_of(file@, *map),
        exists|got: Result<Vec<u8>, std::io::Error>| #[trigger]
            compressing_gives(grid_bytes(map.grid@), workers, got) && passes_on(*map, got, r),
{
    let plain: Vec<u8> = plain_winds(map);
    let got: Result<Vec<u8>, std::io::Error> = zstd_compress(plain.as_slice(), ZSTD_LEVEL, workers);
    assert(compressing_gives(grid_bytes(map.grid@), workers, got));
    match got {
        Err(e) => framed(map, Err(io_error::from_std(e))),
        Ok(c) => {
            assert(stands_for(c@, grid_bytes(map.grid@)));
            framed(map, Ok(c))
        },
    }
}

/// The length of the bytes of winds.
proof fn lemma_grid_bytes_len(grid: Seq<Wind>)
    ensures
        grid_bytes(grid).len() == 16 * grid.len(),
    decreases grid.len(),
{
    if grid.len() > 0 {
        lemma_grid_bytes_len(grid.drop_last());
        bytes::lemma_le_bytes_len(grid.last().east_mps.bits as nat, 8);
        bytes::lemma_le_bytes_len(grid.last().north_mps.bits as nat, 8);
    }
}

/// The winds that bytes stand for.
fn read_grid(plain: &Vec<u8>, cells: usize) -> (grid: Vec<Wind>)
    requires
        plain@.len() == cells * 16,
    ensures
        grid@.len() == cells,
        grid_bytes(grid@) == plain@,
{
    let len: usize = plain.len();
    let mut grid: Vec<Wind> = Vec::new();
    let mut k: usize = 0;
    assert(grid_bytes(grid@) =~= plain@.take(0));
    while k < cells
        invariant
            len == plain@.len() == cells * 16,
            k <= cells,
            grid@.len() == k,
            grid_bytes(grid@) == plain@.take(16 * k),
        decreases cells - k,
    {
        let at: usize = 16 * k;
        let east: u64 = bytes::read_u64_le(plain.as_slice(), at);
        let north: u64 = bytes::read_u64_le(plain.as_slice(), at + 8);
        let w: Wind = Wind { east_mps: Real { bits: east }, north_mps: Real { bits: north } };
        let ghost before = grid@;
        grid.push(w);
        proof {
            bytes::law_bytes_of_value(plain@.subrange(at as int, at + 8));
            bytes::law_bytes_of_value(plain@.subrange(at + 8, at + 16));
            assert(grid@.drop_last() =~= before);
            assert(plain@.take(16 * (k + 1)) =~= plain@.take(16 * k) + (plain@.subrange(
                at as int,
                at + 8,
            ) + plain@.subrange(at + 8, at + 16)));
        }
        k += 1;
    }
    assert(plain@.take(16 * k) =~= plain@);
    grid
}

/// The product of three numbers and 16, where it fits.
fn sized(nx: u64, ny: u64, nt: u64) -> (r: Option<(usize, usize)>)
    ensures
        r is Some <==> dims_fit(nx as nat, ny as nat, nt as nat),
        r matches Some((cells, size)) ==> cells == nx * ny * nt && size == cells * 16,
{
    if nx > usize::MAX as u64 || ny > usize::MAX as u64 || nt > usize::MAX as u64 {
        return None;
    }
    match (nx as usize).checked_mul(ny as usize) {
        None => None,
        Some(p) => match p.checked_mul(nt as usize) {
            None => {
                assert(nx * ny * nt * 16 > usize::MAX);
                None
            },
            Some(cells) => match cells.checked_mul(BYTES_PER_CELL) {
                None => None,
                Some(size) => Some((cells, size)),
            },
        },
    }
}

/// How many bytes the winds of a file take before they are compressed, unless its header
/// cannot be read.
pub fn plain_len(file: &[u8]) -> (r: Result<usize, DecodeError>)
    ensures
        r is Ok <==> headed(file@),
        r matches Ok(size) ==> size == cells_told(file@) * 16,
        r matches Err(e) ==> match e {
            DecodeError::BadMagic => file@.len() >= 76 && file@.take(8) != MAGIC@,
            DecodeError::UnsupportedVersion(v) => {
                &&& file@.len() >= 76
                &&& file@.take(8) == MAGIC@
                &&& v == bytes::field(file@, 8, 4)
                &&& v != VERSION
            },
            DecodeError::BadDimensions { nx, ny, nt } => {
                &&& has_header(file@)
                &&& nx == bytes::field(file@, 12, 8)
                &&& ny == bytes::field(file@, 20, 8)
                &&& nt == bytes::field(file@, 28, 8)
                &&& !dims_fit(nx as nat, ny as nat, nt as nat)
            },
            DecodeError::Io(_) => file@.len() < 76 && ends_early(e),
        },
{
    if file.len() < HEADER_BYTES {
        return Err(DecodeError::Io(IoError::unexpected_eof()));
    }
    let magic: [u8; 8] = MAGIC;
    assert(file@.subrange(0, 8) =~= file@.take(8));
    if !bytes::holds_at(file, 0, magic.as_slice()) {
        return Err(DecodeError::BadMagic);
    }
    let version: u32 = bytes::read_u32_le(file, 8);
    if version != VERSION {
        return Err(DecodeError::UnsupportedVersion(version));
    }
    let nx: u64 = bytes::read_u64_le(file, 12);
    let ny: u64 = bytes::read_u64_le(file, 20);
    let nt: u64 = bytes::read_u64_le(file, 28);
    match sized(nx, ny, nt) {
        None => Err(DecodeError::BadDimensions { nx, ny, nt }),
        Some((_, size)) => Ok(size),
    }
}

/// The map that a file tells of, out of the bytes of its winds, unless they could not
/// be decompressed or there are too few. `crossfade` tells how long the blend from the
/// last time to the first takes, out of the time between times; the file does not tell.
pub fn map_told<F: Fn(Real) -> Real>(
    file: &[u8],
    plain: Result<Vec<u8>, IoError>,
    crossfade: &F,
) -> (r: Result<BakedWindMap, DecodeError>)
    requires
        headed(file@),
        plain matches Ok(plain) ==> plain@.len() <= cells_told(file@) * 16,
        given::settled1(*crossfade),
    ensures
        match plain {
            Err(e) => r == Err::<BakedWindMap, DecodeError>(DecodeError::Io(e)),
            Ok(plain) => if plain@.len() < cells_told(file@) * 16 {
                r matches Err(e) && ends_early(e)
            } else {
                r matches Ok(m) && {
                    &&& shaped_by(file@, m)
                    &&& grid_bytes(m.grid@) == plain@
                    &&& m.crossfade_seconds == given::gives1(*crossfade, m.t_step_seconds)
                }
            },
        },
{
    let plain: Vec<u8> = match plain {
        Err(e) => {
            return Err(DecodeError::Io(e));
        },
        Ok(plain) => plain,
    };
    let nx: u64 = bytes::read_u64_le(file, 12);
    let ny: u64 = bytes::read_u64_le(file, 20);
    let nt: u64 = bytes::read_u64_le(file, 28);
    let cells: usize = match sized(nx, ny, nt) {
        None => {
            return Err(DecodeError::BadDimensions { nx, ny, nt });
        },
        Some((cells, size)) => {
            if plain.len() < size {
                return Err(DecodeError::Io(IoError::unexpected_eof()));
            }
            cells
        },
    };
    let grid: Vec<Wind> = read_grid(&plain, cells);
    let t_step_seconds: Real = Real { bits: bytes::read_u64_le(file, 60) };
    Ok(
        BakedWindMap {
            grid,
            nx: nx as usize,
            ny: ny as usize,
            nt: nt as usize,
            x_min: Real { bits: bytes::read_u64_le(file, 36) },
            y_min: Real { bits: bytes::read_u64_le(file, 44) },
            step: Real { bits: bytes::read_u64_le(file, 52) },
            t_step_seconds,
            crossfade_seconds: crossfade(t_step_seconds),
            coord_scale: Real { bits: bytes::read_u64_le(file, 68) },
        },
    )
}

/// The map that a file tells of. `crossfade` is the function of `map_told`.
pub fn decode<F: Fn(Real) -> Real>(file: &[u8], crossfade: &F) -> (r: Result<BakedWindMap, DecodeError>)
    requires
        given::settled1(*crossfade),
    ensures
        r is Ok <==> readable(file@),
        r matches Ok(m) ==> told_by(file@, m) && m.crossfade_seconds == given::gives1(
            *crossfade,
            m.t_step_seconds,
        ),
        r matches Err(e) ==> match e {
            DecodeError::BadMagic => file@.len() >= 76 && file@.take(8) != MAGIC@,
            DecodeError::UnsupportedVersion(v) => {
                &&& file@.len() >= 76
                &&& file@.take(8) == MAGIC@
                &&& v == bytes::field(file@, 8, 4)
                &&& v != VERSION
            },
            DecodeError::BadDimensions { nx, ny, nt } => {
                &&& has_header(file@)
                &&& nx == bytes::field(file@, 12, 8)
                &&& ny == bytes::field(file@, 20, 8)
                &&& nt == bytes::field(file@, 28, 8)
                &&& !dims_fit(nx as nat, ny as nat, nt as nat)
            },
            DecodeError::Io(_) => {
                ||| file@.len() < 76 && ends_early(e)
                ||| headed(file@) && (zstd_first(file@.skip(76), cells_told(file@) * 16) matches Some(s)
                    ==> s.len() < cells_told(file@) * 16 && ends_early(e))
            },
        },
{
    let size: usize = match plain_len(file) {
        Err(e) => {
            return Err(e);
        },
        Ok(size) => size,
    };
    let rest: &[u8] = vstd::slice::slice_subrange(file, HEADER_BYTES, file.len());
    assert(rest@ =~= file@.skip(76));
    match zstd_decompress(rest, size) {
        Err(e) => map_told(file, Err(io_error::from_std(e)), crossfade),
        Ok(plain) => map_told(file, Ok(plain), crossfade),
    }
}

/// Bytes of winds come from one grid only.
proof fn lemma_grid_bytes_tell(a: Seq<Wind>, b: Seq<Wind>)
    requires
        grid_bytes(a) == grid_bytes(b),
    ensures
        a == b,
    decreases a.len(),
{
    lemma_grid_bytes_len(a);
    lemma_grid_bytes_len(b);
    if a.len() > 0 {
        let s = grid_bytes(a);
        let n = s.len() - 16;
        bytes::lemma_pow256();
        bytes::law_value_of_bytes(a.last().east_mps.bits as nat, 8);
        bytes::law_value_of_bytes(a.last().north_mps.bits as nat, 8);
        bytes::law_value_of_bytes(b.last().east_mps.bits as nat, 8);
        bytes::law_value_of_bytes(b.last().north_mps.bits as nat, 8);
        lemma_grid_bytes_len(a.drop_last());
        lemma_grid_bytes_len(b.drop_last());
        assert(s.take(n) =~= grid_bytes(a.drop_last()));
        assert(s.take(n) =~= grid_bytes(b.drop_last()));
        assert(s.subrange(n, n + 8) =~= bytes::le_bytes(a.last().east_mps.bits as nat, 8));
        assert(s.subrange(n, n + 8) =~= bytes::le_bytes(b.last().east_mps.bits as nat, 8));
        assert(s.subrange(n + 8, n + 16) =~= bytes::le_bytes(a.last().north_mps.bits as nat, 8));
        assert(s.subrange(n + 8, n + 16) =~= bytes::le_bytes(b.last().north_mps.bits as nat, 8));
        lemma_grid_bytes_tell(a.drop_last(), b.drop_last());
        assert(a =~= a.drop_last().push(a.last()));
        assert(b =~= b.drop_last().push(b.last()));
    } else {
        assert(a =~= b);
    }
}

/// The fields of a header read back.
proof fn lemma_header_fields(m: BakedWindMap, c: Seq<u8>)
    ensures
        ({
            let file = header_bytes(m) + c;
            &&& has_header(file)
            &&& file.skip(76) == c
            &&& bytes::field(file, 12, 8) == m.nx
            &&& bytes::field(file, 20, 8) == m.ny
            &&& bytes::field(file, 28, 8) == m.nt
            &&& bytes::field(file, 36, 8) == m.x_min.bits
            &&& bytes::field(file, 44, 8) == m.y_min.bits
            &&& bytes::field(file, 52, 8) == m.step.bits
            &&& bytes::field(file, 60, 8) == m.t_step_seconds.bits
            &&& bytes::field(file, 68, 8) == m.coord_scale.bits
        }),
{
    let file = header_bytes(m) + c;
    bytes::lemma_pow256();
    bytes::law_value_of_bytes(VERSION as nat, 4);
    bytes::law_value_of_bytes(m.nx as nat, 8);
    bytes::law_value_of_bytes(m.ny as nat, 8);
    bytes::law_value_of_bytes(m.nt as nat, 8);
    bytes::law_value_of_bytes(m.x_min.bits as nat, 8);
    bytes::law_value_of_bytes(m.y_min.bits as nat, 8);
    bytes::law_value_of_bytes(m.step.bits as nat, 8);
    bytes::law_value_of_bytes(m.t_step_seconds.bits as nat, 8);
    bytes::law_value_of_bytes(m.coord_scale.bits as nat, 8);
    assert(file.take(8) =~= MAGIC@);
    assert(file.subrange(8, 12) =~= bytes::le_bytes(VERSION as nat, 4));
    assert(file.subrange(12, 20) =~= bytes::le_bytes(m.nx as nat, 8));
    assert(file.subrange(20, 28) =~= bytes::le_bytes(m.ny as nat, 8));
    assert(file.subrange(28, 36) =~= bytes::le_bytes(m.nt as nat, 8));
    assert(file.subrange(36, 44) =~= bytes::le_bytes(m.x_min.bits as nat, 8));
    assert(file.subrange(44, 52) =~= bytes::le_bytes(m.y_min.bits as nat, 8));
    assert(file.subrange(52, 60) =~= bytes::le_bytes(m.step.bits as nat, 8));
    assert(file.subrange(60, 68) =~= bytes::le_bytes(m.t_step_seconds.bits as nat, 8));
    assert(file.subrange(68, 76) =~= bytes::le_bytes(m.coord_scale.bits as nat, 8));
    assert(file.skip(76) =~= c);
}

/// A map read from the file of a map is that map, but for the blend from the last
/// time to the first, which the file does not tell. The file of a map whose winds
/// fit in memory can be read.
pub proof fn law_map_reads_back(file: Seq<u8>, m: BakedWindMap, back: BakedWindMap)
    requires
        m.wf(),
        is_file_of(file, m),
    ensures
        m.nx * m.ny <= usize::MAX && m.grid@.len() * 16 <= usize::MAX ==> readable(file),
        told_by(file, back) ==> {
            &&& back.grid@ == m.grid@
            &&& back.nx == m.nx
            &&& back.ny == m.ny
            &&& back.nt == m.nt
            &&& back.x_min == m.x_min
            &&& back.y_min == m.y_min
            &&& back.step == m.step
            &&& back.t_step_seconds == m.t_step_seconds
            &&& back.coord_scale == m.coord_scale
        },
{
    let c = choose|c: Seq<u8>| file == header_bytes(m) + c && #[trigger] stands_for(c, grid_bytes(m.grid@));
    lemma_header_fields(m, c);
    lemma_grid_bytes_len(m.grid@);
    let plain = grid_bytes(m.grid@);
    let cells = m.grid@.len();
    assert(cells_told(file) == cells);
    assert(plain.len() == cells * 16);
    assert(zstd_first(c, cells * 16) == Some(plain.take((cells * 16) as int)));
    assert(plain.take((cells * 16) as int) =~= plain);
    if told_by(file, back) {
        lemma_grid_bytes_tell(back.grid@, m.grid@);
    }
}

} // verus!
