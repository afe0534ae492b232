//! The hour that a frame is wanted for, as text.
use crate::calendar;
use crate::calendar::{DateError, UtcTime};
use crate::dates;
use crate::grib2;
use crate::text;
use crate::text::NumberError;
use vstd::prelude::*;
use vstd::string::*;
use vstd::utf8::*;

verus! {

/// Why text tells no hour.
#[allow(inconsistent_fields)]
#[derive(Clone, Debug, PartialEq, Eq)]
pub enum WhenParseError {
    /// The text has neither 8 nor 10 bytes.
    BadLength { len: usize, value: String },
    /// The date is none.
    BadDate { date: String, source: DateError },
    /// The hour is no number.
    BadHour { hour: String, source: NumberError },
    /// The hour is more than 23.
    HourOutOfRange { hour: u32 },
}

impl WhenParseError {
    /// The error in words.
    pub open spec fn words(&self) -> Seq<char> {
        match self {
            WhenParseError::BadLength { len, value } => "expected YYYYMMDD or YYYYMMDDHH, got `"@
                + value@ + "` ("@ + text::decimal(*len as nat) + " chars)"@,
            WhenParseError::BadDate { date, source } => "invalid date `"@ + date@ + "`: "@
                + source.words(),
            WhenParseError::BadHour { hour, source } => "invalid hour `"@ + hour@ + "`: "@
                + source.words(),
            WhenParseError::HourOutOfRange { hour } => "invalid hour "@ + text::decimal(*hour as nat),
        }
    }

    /// The error in words.
    pub fn message(&self) -> (s: String)
        ensures
            s@ == self.words(),
    {
        match self {
            WhenParseError::BadLength { len, value } => {
                let mut s: String = "expected YYYYMMDD or YYYYMMDDHH, got `".to_owned();
                s.append(value.as_str());
                s.append("` (");
                text::push_decimal(&mut s, *len as u64);
                s.append(" chars)");
                s
            },
            WhenParseError::BadDate { date, source } => {
                let mut s: String = "invalid date `".to_owned();
                s.append(date.as_str());
                s.append("`: ");
                s.append(source.message());
                s
            },
            WhenParseError::BadHour { hour, source } => {
                let mut s: String = "invalid hour `".to_owned();
                s.append(hour.as_str());
                s.append("`: ");
                s.append(source.message());
                s
            },
            WhenParseError::HourOutOfRange { hour } => {
                let mut s: String = "invalid hour ".to_owned();
                text::push_decimal(&mut s, *hour as u64);
                s
            },
        }
    }
}

/// The hour that the bytes of a text tell behind the date, 0 where they stop there.
pub open spec fn hour_told(b: Seq<u8>) -> int {
    if b.len() == 10 {
        calendar::two_digits(b, 8)
    } else {
        0
    }
}

/// Whether bytes are the digits of a date that there is, with or without those of
/// an hour of the day.
pub open spec fn tells_hour(b: Seq<u8>) -> bool {
    &&& b.len() == 8 || b.len() == 10
    &&& calendar::all_digits(b)
    &&& calendar::tells_date(b.take(8))
    &&& hour_told(b) <= 23
}

/// Whether bytes are the digits of a date that there is and of an hour that no day has.
pub open spec fn tells_late_hour(b: Seq<u8>) -> bool {
    &&& b.len() == 10
    &&& calendar::all_digits(b)
    &&& calendar::tells_date(b.take(8))
    &&& hour_told(b) > 23
}

/// What reading bytes of text as an hour gives.
pub open spec fn read_as(b: Seq<u8>, r: Result<UtcTime, WhenParseError>) -> bool {
    if b.len() != 8 && b.len() != 10 {
        r matches Err(WhenParseError::BadLength { len, value }) && len == b.len() && encode_utf8(value@)
            == b
    } else if b.len() == 10 && !is_char_boundary(b, 8) {
        bad_date(r, b, DateError::Invalid)
    } else if b.len() == 10 && !calendar::all_digits(b.skip(8)) {
        r matches Err(WhenParseError::BadHour { hour, source }) && encode_utf8(hour@) == b.skip(8)
            && source == NumberError::InvalidDigit
    } else {
        let d = b.take(8);
        match calendar::date_in(decode_utf8(d)) {
            Err(e) => bad_date(r, d, e),
            Ok((y, m, day)) => if !calendar::all_digits(d) {
                bad_date(r, d, DateError::Invalid)
            } else if hour_told(b) > 23 {
                r matches Err(WhenParseError::HourOutOfRange { hour }) && hour == hour_told(b)
            } else {
                r matches Ok(t) && t.wf() && t.nanos == 0 && t.seconds == calendar::civil_days(
                    y as int,
                    m as int,
                    day as int,
                ) * 86_400 + hour_told(b) * 3600
            },
        }
    }
}

/// Whether the answer is that the text with the bytes `b` is no date.
pub open spec fn bad_date(r: Result<UtcTime, WhenParseError>, b: Seq<u8>, e: DateError) -> bool {
    r matches Err(WhenParseError::BadDate { date, source }) && encode_utf8(date@) == b && source == e
}

/// Whether all bytes are decimal digits.
fn are_digits(s: &[u8]) -> (r: bool)
    ensures
        r == calendar::all_digits(s@),
{
    let mut k: usize = 0;
    while k < s.len()
        invariant
            k <= s@.len(),
            forall|j: int| 0 <= j < k ==> 48 <= #[trigger] s@[j] <= 57,
        decreases s@.len() - k,
    {
        if s[k] < 48 || s[k] > 57 {
            return false;
        }
        k += 1;
    }
    true
}

/// Day numbers of years of four digits are small.
proof fn lemma_day_bound(y: int, m: int, d: int)
    requires
        0 <= y <= 9999,
        calendar::is_date(y, m, d),
    ensures
        -800_000 <= calendar::civil_days(y, m, d) <= 3_000_000,
{
    calendar::lemma_days_before_month(y);
}

/// The first second of an hour, out of what reading the text of its date told. Only
/// digits are taken for a date, and no hour after 23.
pub fn hour_on(date: &str, hour: u32, told: Result<(i32, u32, u32), DateError>) -> (r: Result<
    UtcTime,
    WhenParseError,
>)
    requires
        told matches Ok((y, m, d)) ==> calendar::is_date(y as int, m as int, d as int),
        told matches Ok((y, m, d)) ==> (calendar::all_digits(encode_utf8(date@)) ==> 0 <= y <= 9999),
    ensures
        match told {
            Err(e) => bad_date(r, encode_utf8(date@), e),
            Ok((y, m, d)) => if !calendar::all_digits(encode_utf8(date@)) {
                bad_date(r, encode_utf8(date@), DateError::Invalid)
            } else if hour > 23 {
                r == Err::<UtcTime, WhenParseError>(WhenParseError::HourOutOfRange { hour })
            } else {
                r matches Ok(t) && t.wf() && t.nanos == 0 && t.seconds == calendar::civil_days(
                    y as int,
                    m as int,
                    d as int,
                ) * 86_400 + hour * 3600
            },
        },
{
    let (y, m, d): (i32, u32, u32) = match told {
        Err(source) => {
            return Err(WhenParseError::BadDate { date: date.to_owned(), source });
        },
        Ok(told) => told,
    };
    if !are_digits(date.as_bytes()) {
        return Err(WhenParseError::BadDate { date: date.to_owned(), source: DateError::Invalid });
    }
    if hour > 23 {
        return Err(WhenParseError::HourOutOfRange { hour });
    }
    proof {
        lemma_day_bound(y as int, m as int, d as int);
    }
    match grib2::days_from_civil(y, m as u8, d as u8) {
        Some(days) => Ok(UtcTime { seconds: days * 86_400 + hour as i64 * 3600, nanos: 0 }),
        None => Err(WhenParseError::HourOutOfRange { hour }),
    }
}

/// The first second of the hour that text tells: `YYYYMMDD`, which stands for
/// midnight, or `YYYYMMDDHH`.
pub fn parse_yyyymmddhh(s: &str) -> (r: Result<UtcTime, WhenParseError>)
    ensures
        read_as(encode_utf8(s@), r),
        r is Ok <==> tells_hour(encode_utf8(s@)),
        tells_late_hour(encode_utf8(s@)) ==> r == Err::<UtcTime, WhenParseError>(
            WhenParseError::HourOutOfRange { hour: hour_told(encode_utf8(s@)) as u32 },
        ),
        r matches Ok(t) ==> ({
            let b = encode_utf8(s@);
            t.seconds == calendar::civil_days(
                calendar::year_of(b),
                calendar::two_digits(b, 4),
                calendar::two_digits(b, 6),
            ) * 86_400 + hour_told(b) * 3600
        }),
{
    let ghost b = encode_utf8(s@);
    let len: usize = s.as_bytes().len();
    if len != 8 && len != 10 {
        return Err(WhenParseError::BadLength { len, value: s.to_owned() });
    }
    let mut date: &str = s;
    let mut hour: u32 = 0;
    proof {
        encode_utf8_valid_utf8(s@);
        encode_utf8_decode_utf8(s@);
        if b.len() == 10 {
            is_char_boundary_iff_not_is_continuation_byte(b, 8);
        }
        if b.len() == 8 {
            assert(b.take(8) =~= b);
        }
    }
    if len == 10 {
        if !s.is_char_boundary(8) {
            proof {
                assert(is_continuation_byte(b[8]));
                assert(!(48 <= b[8] <= 57));
            }
            return Err(WhenParseError::BadDate { date: s.to_owned(), source: DateError::Invalid });
        }
        let (d, h): (&str, &str) = s.split_at(8);
        assert(encode_utf8(d@) =~= b.take(8));
        assert(encode_utf8(h@) =~= b.skip(8));
        if !are_digits(h.as_bytes()) {
            proof {
                let k = choose|k: int| 0 <= k < b.skip(8).len() && !(48 <= #[trigger] b.skip(8)[k] <= 57);
                assert(b[k + 8] == b.skip(8)[k]);
            }
            return Err(
                WhenParseError::BadHour { hour: h.to_owned(), source: NumberError::InvalidDigit },
            );
        }
        let digits: &[u8] = h.as_bytes();
        proof {
            assert(digits@ =~= b.skip(8));
            assert(48 <= b.skip(8)[0] <= 57);
            assert(48 <= b.skip(8)[1] <= 57);
        }
        hour = (digits[0] - 48) as u32 * 10 + (digits[1] - 48) as u32;
        date = d;
    }
    assert(encode_utf8(date@) =~= b.take(8));
    assert(hour == hour_told(b));
    proof {
        encode_utf8_decode_utf8(date@);
    }
    let told: Result<(i32, u32, u32), DateError> = calendar::read_date(date);
    proof {
        if !calendar::all_digits(b.take(8)) {
            let k = choose|k: int| 0 <= k < b.take(8).len() && !(48 <= #[trigger] b.take(8)[k] <= 57);
            assert(b[k] == b.take(8)[k]);
        } else {
            assert forall|k: int| 0 <= k < b.len() implies 48 <= #[trigger] b[k] <= 57 by {
                if k < 8 {
                    assert(b.take(8)[k] == b[k]);
                } else {
                    assert(b.skip(8)[k - 8] == b[k]);
                }
            }
            assert(48 <= b[0] <= 57 && 48 <= b[1] <= 57 && 48 <= b[2] <= 57 && 48 <= b[3] <= 57);
        }
    }
    hour_on(date, hour, told)
}

/// A day and an hour written as ten digits, or a day alone as eight, are read as that hour, or as
/// the first of the day.
pub proof fn law_hours_read_back(y: int, m: int, d: int, hour: nat)
    requires
        calendar::is_date(y, m, d),
        0 <= y <= 9999,
        hour < 100,
    ensures
        ({
            let day = calendar::yyyymmdd(calendar::civil_days(y, m, d));
            let b = encode_utf8(day + text::padded(hour, 2));
            &&& b.len() == 10
            &&& hour < 24 ==> tells_hour(b)
            &&& hour >= 24 ==> tells_late_hour(b) && !tells_hour(b)
            &&& hour < 24 ==> !tells_late_hour(b)
            &&& hour_told(b) == hour
            &&& calendar::year_of(b) == y
            &&& calendar::two_digits(b, 4) == m
            &&& calendar::two_digits(b, 6) == d
            &&& tells_hour(encode_utf8(day))
            &&& hour_told(encode_utf8(day)) == 0
        }),
{
    dates::law_date_text_reads_back(y, m, d);
    calendar::law_date_of_day(y, m, d);
    let day = calendar::yyyymmdd(calendar::civil_days(y, m, d));
    let e = encode_utf8(day);
    let s = day + text::padded(hour, 2);
    let b = encode_utf8(s);
    assert(calendar::days_in_month(y, m) <= 31);
    dates::lemma_padded_digits(y as nat);
    dates::lemma_padded_digits(m as nat);
    dates::lemma_padded_digits(d as nat);
    dates::lemma_padded_digits(hour);
    dates::lemma_digits_join(y as nat);
    dates::lemma_digits_join(m as nat);
    dates::lemma_digits_join(d as nat);
    dates::lemma_digits_join(hour);
    let (a, n, c) = (y as nat, m as nat, d as nat);
    let front = seq![
        text::digit(a / 1000),
        text::digit(a / 100 % 10),
        text::digit(a / 10 % 10),
        text::digit(a % 10),
        text::digit(n / 10),
        text::digit(n % 10),
        text::digit(c / 10),
        text::digit(c % 10),
    ];
    assert(day =~= front);
    let back = seq![text::digit(hour / 10), text::digit(hour % 10)];
    assert(s =~= front + back);
    dates::lemma_digits_read(day);
    dates::lemma_digits_read(s);
    assert(s[8] == text::digit(hour / 10));
    assert(s[9] == text::digit(hour % 10));
    assert(b[8] == 48 + hour / 10 && b[9] == 48 + hour % 10);
    lemma_same_front(day, s, e, b);
    assert(b.take(8) =~= e);
    assert(b.take(8)[0] == b[0] && b.take(8)[1] == b[1] && b.take(8)[2] == b[2] && b.take(8)[3] == b[3]
        && b.take(8)[4] == b[4] && b.take(8)[5] == b[5] && b.take(8)[6] == b[6] && b.take(8)[7] == b[7]);
    assert(e.take(8) =~= e);
}

/// Digits in front stay the same bytes.
proof fn lemma_same_front(day: Seq<char>, s: Seq<char>, e: Seq<u8>, b: Seq<u8>)
    requires
        day.len() == 8,
        s.len() == 10,
        e.len() == 8,
        b.len() == 10,
        forall|k: int| 0 <= k < 8 ==> day[k] == s[k],
        forall|k: int| 0 <= k < 8 ==> exists|d: nat| d < 10 && #[trigger] day[k] == text::digit(d),
        forall|k: int, d: nat|
            0 <= k < 8 && d < 10 && #[trigger] day[k] == #[trigger] text::digit(d) ==> e[k] == 48 + d,
        forall|k: int, d: nat|
            0 <= k < 10 && d < 10 && #[trigger] s[k] == #[trigger] text::digit(d) ==> b[k] == 48 + d,
    ensures
        forall|k: int| 0 <= k < 8 ==> e[k] == b[k],
{
    assert forall|k: int| 0 <= k < 8 implies e[k] == b[k] by {
        let d = choose|d: nat| d < 10 && day[k] == text::digit(d);
        assert(s[k] == text::digit(d));
    }
}

/// Text is read as an hour only where it is eight digits, or ten of which the last two tell an
/// hour of the day; that hour is counted from midnight. Other lengths are told as such; two last
/// bytes that are not digits are told as a bad hour, and digits above 23 as an hour out of range.
/// All else is told as a bad date, of all the text where its eighth byte does not end a character
/// and of the first eight bytes otherwise.
pub proof fn law_what_reading_an_hour_gives(b: Seq<u8>, r: Result<UtcTime, WhenParseError>)
    requires
        read_as(b, r),
    ensures
        match r {
            Ok(t) => {
                let hour = if b.len() == 10 {
                    (b[8] - 48) * 10 + (b[9] - 48)
                } else {
                    0int
                };
                &&& b.len() == 8 || b.len() == 10
                &&& forall|k: int| 0 <= k < b.len() ==> 48 <= #[trigger] b[k] <= 57
                &&& 0 <= hour < 24
                &&& (t.seconds - hour * 3600) % 86_400 == 0
                &&& t.nanos == 0
            },
            Err(WhenParseError::BadLength { len, value }) => b.len() != 8 && b.len() != 10 && len
                == b.len() && encode_utf8(value@) == b,
            Err(WhenParseError::BadHour { hour, .. }) => b.len() == 10 && is_char_boundary(b, 8) && !(48
                <= b[8] <= 57 && 48 <= b[9] <= 57) && encode_utf8(hour@) == seq![b[8], b[9]],
            Err(WhenParseError::HourOutOfRange { hour }) => b.len() == 10 && 48 <= b[8] <= 57 && 48
                <= b[9] <= 57 && hour == (b[8] - 48) * 10 + (b[9] - 48) && hour >= 24,
            Err(WhenParseError::BadDate { date, .. }) => (b.len() == 8 || b.len() == 10) && encode_utf8(
                date@,
            ) == (if b.len() == 10 && !is_char_boundary(b, 8) {
                b
            } else {
                b.take(8)
            }),
        },
{
    if b.len() == 10 {
        let s = b.skip(8);
        assert(s =~= seq![b[8], b[9]]);
        assert(s[0] == b[8] && s[1] == b[9]);
        if 48 <= b[8] <= 57 && 48 <= b[9] <= 57 {
            assert(calendar::all_digits(s));
        }
    }
    if r is Ok {
        let d = b.take(8);
        assert(calendar::all_digits(d));
        assert forall|k: int| 0 <= k < b.len() implies 48 <= #[trigger] b[k] <= 57 by {
            if k < 8 {
                assert(d[k] == b[k]);
            }
        }
    }
}

} // verus!
