//! Wind over time in a video stream.
//!
//! A file is a header and an IVF container of AV1 packets. Each field is a picture
//! with three planes of 10-bit pixels: the eastward wind, the northward wind, and a
//! constant. The first row of a picture is the northernmost. All numbers of the
//! header are little-endian.
//!
//! | At | Bytes | Field |
//! |---:|------:|-------|
//! | 0 | 8 | the signature `WCAV` and four zeros |
//! | 8 | 4 | version, 1 to 3; 2 is written |
//! | 12 | 4 | longitude of the first column |
//! | 16 | 4 | latitude of the first row |
//! | 20 | 4 | degrees between columns |
//! | 24 | 4 | degrees between rows |
//! | 28 | 4 | number of columns |
//! | 32 | 4 | number of rows |
//! | 36 | 4 | number of fields |
//! | 40 | 4 | seconds between fields |
//! | 44 | 8 | from version 2 on: the first instant, in seconds from the first of 1970 on |
//! | 52 | 8 | from version 2 on: the last instant |
//! | 60 | 8 each | in version 3: when each field holds |
pub mod decoder;
pub mod encoder;
pub mod header;
pub mod ivf;
pub mod on_disk;
pub mod planes;
pub mod rav1d_wrap;
pub mod rav1e_wrap;

use crate::wind_map::layout::GridLayout;
use vstd::prelude::*;

verus! {

/// The signature that a file begins with: `WCAV` and four zeros.
pub const MAGIC: [u8; 8] = [0x57, 0x43, 0x41, 0x56, 0, 0, 0, 0];

/// The version that is written.
pub const VERSION: u32 = 2;

/// The length of the header in version 1.
pub const HEADER_BYTES_V1: usize = 44;

/// The length of the header in version 2.
pub const HEADER_BYTES_V2: usize = 60;

/// The length of the header in version 3, without the times of the fields.
pub const HEADER_BYTES_V3_FIXED: usize = 60;

/// The length of the header that is written.
pub const HEADER_BYTES: usize = HEADER_BYTES_V2;

/// What stands for an instant that is not known.
pub const UNKNOWN_TIME_SENTINEL: i64 = i64::MIN;

/// The pixel that fills the third plane.
pub const CR_SENTINEL: u16 = 512;

/// The greatest pixel.
pub const MAX_PIXEL: u16 = 1023;

/// Whether two grids are the same, their numbers bit for bit.
pub fn grid_matches(a: &GridLayout, b: &GridLayout) -> (r: bool)
    ensures
        r == (*a == *b),
{
    *a == *b
}

} // verus!
