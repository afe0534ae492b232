//! The messages of a GRIB2 file, their grids and their values.
use crate::grib2::packing::{grid_sound, values_sound};
use crate::grib2::sections::{fields_of, framed, product_whole};
use crate::grib2::RefTime;
use crate::number::{Real, Real32};
use grib::codetables::Code;
use grib::LatLons;
use vstd::prelude::*;

verus! {

/// What a message holds, and when its model run began.
#[derive(Clone, Copy, Debug)]
pub struct Head {
    pub discipline: u8,
    pub category: Option<u8>,
    pub number: Option<u8>,
    pub ref_time: RefTime,
}

/// Where and when the values of a message hold.
#[derive(Clone, Copy, Debug)]
pub struct Level {
    /// The kind of the first surface, and its value.
    pub surface: Option<(u8, Real)>,
    /// The code of a unit of time, and how many of it the lead time is.
    pub forecast: Option<(u8, u32)>,
}

/// What the messages of a file hold, or why it cannot be read.
pub uninterp spec fn heads_in(file: Seq<u8>) -> Result<Seq<Head>, Seq<char>>;

/// Where and when the values of message `k` of a file hold.
pub uninterp spec fn level_in(file: Seq<u8>, k: int) -> Option<Level>;

/// Latitude and longitude of the points of the grid of message `k` of a file, where they
/// can be told.
pub uninterp spec fn points_in(file: Seq<u8>, k: int) -> Option<Seq<(Real32, Real32)>>;

/// The values of message `k` of a file, where they can be unpacked.
pub uninterp spec fn values_in(file: Seq<u8>, k: int) -> Option<Seq<Real32>>;

/// Whether the product of message `k` holds what its template says.
pub open spec fn has_whole_product(file: Seq<u8>, k: int) -> bool {
    0 <= k < fields_of(file).len() && product_whole(file, fields_of(file)[k].product as int)
}

/// Whether what is told of the grid of message `k` is sound.
pub open spec fn has_sound_grid(file: Seq<u8>, k: int) -> bool {
    0 <= k < fields_of(file).len() && grid_sound(file, fields_of(file)[k].grid as int)
}

/// Whether what is told of the values of message `k` is sound.
pub open spec fn has_sound_values(file: Seq<u8>, k: int) -> bool {
    0 <= k < fields_of(file).len() && values_sound(
        file,
        fields_of(file)[k].representation as int,
        fields_of(file)[k].data as int,
    )
}

/// What the messages of a file hold, or why it cannot be read.
///
/// This is `grib::from_bytes`, and for each of its messages `indicator`,
/// `identification` with `ref_time_unchecked`, and `prod_def` with `parameter_category`
/// and `parameter_number`. It is taken to give the same for the same bytes. Of what it
/// gives nothing more is stated.
#[verifier::external_body]
pub(crate) fn read_heads(file: &[u8]) -> (r: Result<Vec<Head>, String>)
    requires
        framed(file@),
    ensures
        r matches Ok(heads) ==> (heads_in(file@) matches Ok(told) && told == heads@),
        r matches Err(e) ==> (heads_in(file@) matches Err(told) && told == e@),
{
    let messages = grib::from_bytes(file).map_err(|e| e.to_string())?;
    let heads = messages.iter().map(|(_, m)| {
        let t = m.identification().ref_time_unchecked();
        Head {
            discipline: m.indicator().discipline,
            category: m.prod_def().parameter_category(),
            number: m.prod_def().parameter_number(),
            ref_time: RefTime {
                year: t.year, month: t.month, day: t.day, hour: t.hour, minute: t.minute, second: t.second,
            },
        }
    });
    Ok(heads.collect())
}

/// Where and when the values of message `k` hold.
///
/// This is `grib::from_bytes`, its message `k`, and `prod_def` of it with `fixed_surfaces`
/// and `forecast_time`. It is taken to give the same for the same bytes and the same
/// number.
#[verifier::external_body]
pub(crate) fn read_level(file: &[u8], k: usize) -> (r: Option<Level>)
    requires
        framed(file@),
        has_whole_product(file@, k as int),
    ensures
        r == level_in(file@, k as int),
{
    let messages = grib::from_bytes(file).ok()?;
    let (_, m) = messages.iter().nth(k)?;
    let surface = m.prod_def().fixed_surfaces().map(|(s, _)| (s.surface_type, s.value().to_bits()));
    let forecast = m.prod_def().forecast_time().map(|f| match f.unit {
        Code::Name(n) => (n.into(), f.value),
        Code::Num(n) => (n, f.value),
    });
    Some(Level { surface: surface.map(|(kind, bits)| (kind, Real { bits })), forecast })
}

/// Latitude and longitude of the points of the grid of message `k`, where they can be
/// told.
///
/// This is `grib::from_bytes`, its message `k`, and `latlons` of it. It is taken to give
/// the same for the same bytes and the same number.
#[verifier::external_body]
pub(crate) fn read_points(file: &[u8], k: usize) -> (r: Option<Vec<(Real32, Real32)>>)
    requires
        framed(file@),
        has_sound_grid(file@, k as int),
    ensures
        r matches Some(points) ==> points_in(file@, k as int) == Some(points@),
        r is None ==> points_in(file@, k as int) is None,
{
    let messages = grib::from_bytes(file).ok()?;
    let (_, m) = messages.iter().nth(k)?;
    let points = m.latlons().ok()?;
    Some(points.map(|(y, x)| (Real32 { bits: y.to_bits() }, Real32 { bits: x.to_bits() })).collect())
}

/// The values of message `k`, where they can be unpacked.
///
/// This is `grib::from_bytes`, its message `k`, `grib::Grib2SubmessageDecoder::from` and
/// `dispatch`. It is taken to give the same for the same bytes and the same number.
#[verifier::external_body]
pub(crate) fn read_values(file: &[u8], k: usize) -> (r: Option<Vec<Real32>>)
    requires
        framed(file@),
        has_sound_values(file@, k as int),
    ensures
        r matches Some(values) ==> values_in(file@, k as int) == Some(values@),
        r is None ==> values_in(file@, k as int) is None,
{
    let messages = grib::from_bytes(file).ok()?;
    let (_, m) = messages.iter().nth(k)?;
    let decoder = grib::Grib2SubmessageDecoder::from(m).ok()?;
    let values = decoder.dispatch().ok()?;
    Some(values.map(|v| Real32 { bits: v.to_bits() }).collect())
}

} // verus!
