//! Days of the Gregorian calendar and instants of universal time.
use crate::text;
use chrono::format::ParseErrorKind;
use chrono::Datelike;
use vstd::prelude::*;
use vstd::utf8::*;

verus! {

/// The first second of the years that dates are told for: the year -262143.
pub const FIRST_SECOND: i64 = -8_334_601_228_800;

/// The last second of the years that dates are told for: the year 262142.
pub const LAST_SECOND: i64 = 8_210_266_876_799;

/// Whether a year has a 29th of February.
pub open spec fn leap(y: int) -> bool {
    y % 4 == 0 && (y % 100 != 0 || y % 400 == 0)
}

/// The number of days of a month.
pub open spec fn days_in_month(y: int, m: int) -> int {
    if m == 2 {
        if leap(y) {
            29
        } else {
            28
        }
    } else if m == 4 || m == 6 || m == 9 || m == 11 {
        30
    } else {
        31
    }
}

/// The number of days of a year before a month.
pub open spec fn days_before_month(y: int, m: int) -> int
    decreases m,
{
    if m <= 1 {
        0
    } else {
        days_before_month(y, m - 1) + days_in_month(y, m - 1)
    }
}

/// The number of days from the first day of the year 1 to the first day of year `y`.
pub open spec fn days_before_year(y: int) -> int {
    365 * (y - 1) + (y - 1) / 4 - (y - 1) / 100 + (y - 1) / 400
}

/// The number of days from the first day of 1970 to day `d` of month `m` of year
/// `y`. A day past the end of its month counts on into the next.
pub open spec fn civil_days(y: int, m: int, d: int) -> int {
    days_before_year(y) + days_before_month(y, m) + d - 1 - 719_162
}

/// Whether there is such a date.
pub open spec fn is_date(y: int, m: int, d: int) -> bool {
    1 <= m <= 12 && 1 <= d <= days_in_month(y, m)
}

/// The days before each month.
pub proof fn lemma_days_before_month(y: int)
    ensures
        ({
            let b: int = if leap(y) {
                1
            } else {
                0
            };
            &&& days_before_month(y, 1) == 0
            &&& days_before_month(y, 2) == 31
            &&& days_before_month(y, 3) == 59 + b
            &&& days_before_month(y, 4) == 90 + b
            &&& days_before_month(y, 5) == 120 + b
            &&& days_before_month(y, 6) == 151 + b
            &&& days_before_month(y, 7) == 181 + b
            &&& days_before_month(y, 8) == 212 + b
            &&& days_before_month(y, 9) == 243 + b
            &&& days_before_month(y, 10) == 273 + b
            &&& days_before_month(y, 11) == 304 + b
            &&& days_before_month(y, 12) == 334 + b
        }),
{
    reveal_with_fuel(days_before_month, 13);
}

/// A year is as long as the days of its months.
pub proof fn lemma_year_length(y: int)
    ensures
        days_before_year(y + 1) == days_before_year(y) + 365 + (if leap(y) {
            1int
        } else {
            0int
        }),
{
}

/// Later years begin later.
proof fn lemma_years_ordered(y: int, z: int)
    requires
        y < z,
    ensures
        days_before_year(y) + 365 + (if leap(y) {
            1int
        } else {
            0int
        }) <= days_before_year(z),
    decreases z - y,
{
    lemma_year_length(y);
    if y + 1 < z {
        lemma_years_ordered(y + 1, z);
    }
}

/// Of two dates the earlier one has the smaller day number.
pub proof fn law_days_follow_dates(y1: int, m1: int, d1: int, y2: int, m2: int, d2: int)
    requires
        is_date(y1, m1, d1),
        is_date(y2, m2, d2),
    ensures
        civil_days(y1, m1, d1) < civil_days(y2, m2, d2) <==> (y1 < y2 || (y1 == y2 && (m1 < m2 || (m1
            == m2 && d1 < d2)))),
        civil_days(y1, m1, d1) == civil_days(y2, m2, d2) ==> y1 == y2 && m1 == m2 && d1 == d2,
{
    lemma_days_before_month(y1);
    lemma_days_before_month(y2);
    if y1 < y2 {
        lemma_years_ordered(y1, y2);
    } else if y2 < y1 {
        lemma_years_ordered(y2, y1);
    }
}

/// The day after a date has the next day number.
pub proof fn law_next_day(y: int, m: int, d: int)
    requires
        is_date(y, m, d),
    ensures
        d < days_in_month(y, m) ==> civil_days(y, m, d + 1) == civil_days(y, m, d) + 1,
        d == days_in_month(y, m) && m < 12 ==> civil_days(y, m + 1, 1) == civil_days(y, m, d) + 1,
        d == days_in_month(y, m) && m == 12 ==> civil_days(y + 1, 1, 1) == civil_days(y, m, d) + 1,
{
    lemma_days_before_month(y);
    lemma_days_before_month(y + 1);
    lemma_year_length(y);
}

/// An instant: whole seconds since the first second of 1970, and nanoseconds
/// beyond them.
#[derive(Clone, Copy, Debug, PartialEq, Eq, Structural)]
pub struct UtcTime {
    pub seconds: i64,
    pub nanos: u32,
}

impl UtcTime {
    /// Nanoseconds since the first second of 1970.
    pub open spec fn instant(self) -> int {
        self.seconds * 1_000_000_000 + self.nanos
    }

    /// Whether the nanoseconds are less than a second and the date can be told.
    pub open spec fn wf(self) -> bool {
        self.nanos < 1_000_000_000 && FIRST_SECOND <= self.seconds <= LAST_SECOND
    }

    /// The hour of the day.
    pub open spec fn hour_of(self) -> int {
        self.seconds as int % 86_400 / 3600
    }

    /// The number of the day, counted from the first of 1970.
    pub open spec fn day_of(self) -> int {
        self.seconds as int / 86_400
    }

    /// Whether `self` comes before `other`.
    pub fn is_before(self, other: UtcTime) -> (r: bool)
        requires
            self.wf(),
            other.wf(),
        ensures
            r == (self.instant() < other.instant()),
    {
        self.seconds < other.seconds || (self.seconds == other.seconds && self.nanos < other.nanos)
    }

    /// The hour of the day.
    pub fn hour(self) -> (h: u32)
        requires
            self.wf(),
        ensures
            h == self.hour_of(),
            h < 24,
    {
        let shifted: u64 = (self.seconds + 8_640_000_000_000) as u64;
        ((shifted % 86_400) / 3600) as u32
    }

    /// The instant `hours` hours earlier.
    pub fn minus_hours(self, hours: u32) -> (t: UtcTime)
        requires
            self.wf(),
            self.seconds - hours * 3600 >= FIRST_SECOND,
        ensures
            t.wf(),
            t.seconds == self.seconds - hours * 3600,
            t.nanos == self.nanos,
    {
        UtcTime { seconds: self.seconds - hours as i64 * 3600, nanos: self.nanos }
    }
}

/// The date of the day that a second belongs to, or `None` outside the years that
/// dates are told for.
///
/// This is `chrono::DateTime::from_timestamp` with no nanoseconds, and the year,
/// month and day of what it returns. It is taken to tell dates from the first
/// second of the year -262143 to the last of the year 262142, and to give the
/// date of the proleptic Gregorian calendar whose day number is the second's.
#[verifier::external_body]
pub(crate) fn date_of_second(seconds: i64) -> (date: Option<(i32, u32, u32)>)
    ensures
        date is Some <==> FIRST_SECOND <= seconds <= LAST_SECOND,
        date matches Some((y, m, d)) ==> {
            &&& is_date(y as int, m as int, d as int)
            &&& civil_days(y as int, m as int, d as int) == seconds as int / 86_400
        },
{
    let t = chrono::DateTime::<chrono::Utc>::from_timestamp(seconds, 0)?;
    Some((t.year(), t.month(), t.day()))
}

/// The instant of a second, or `None` outside the years that dates are told for.
pub fn utc_second(seconds: i64) -> (t: Option<UtcTime>)
    ensures
        t is Some <==> FIRST_SECOND <= seconds <= LAST_SECOND,
        t matches Some(t) ==> t.wf() && t.seconds == seconds && t.nanos == 0,
{
    match date_of_second(seconds) {
        Some(_) => Some(UtcTime { seconds, nanos: 0 }),
        None => None,
    }
}

/// The date whose day number is `n`.
pub open spec fn date_of_day(n: int) -> (int, int, int) {
    choose|date: (int, int, int)| dated(n, date)
}

/// Whether `date` is the date whose day number is `n`.
pub open spec fn dated(n: int, date: (int, int, int)) -> bool {
    is_date(date.0, date.1, date.2) && civil_days(date.0, date.1, date.2) == n
}

/// There is only one date to a day number.
pub proof fn law_date_of_day(y: int, m: int, d: int)
    requires
        is_date(y, m, d),
    ensures
        date_of_day(civil_days(y, m, d)) == (y, m, d),
{
    let n = civil_days(y, m, d);
    assert(dated(n, (y, m, d)));
    let date = date_of_day(n);
    law_days_follow_dates(y, m, d, date.0, date.1, date.2);
}

/// A date as year, month and day without separators.
pub open spec fn yyyymmdd(n: int) -> Seq<char> {
    let date = date_of_day(n);
    text::signed_padded(date.0, 4) + text::padded(date.1 as nat, 2) + text::padded(date.2 as nat, 2)
}

/// Appends the date of an instant as year, month and day without separators.
pub fn push_yyyymmdd(out: &mut String, t: UtcTime)
    requires
        t.wf(),
    ensures
        final(out)@ == old(out)@ + yyyymmdd(t.day_of()),
{
    let ghost before = out@;
    match date_of_second(t.seconds) {
        Some((y, m, d)) => {
            proof {
                law_date_of_day(y as int, m as int, d as int);
            }
            text::push_signed_padded(out, y as i64, 4);
            text::push_padded(out, m as u64, 2);
            text::push_padded(out, d as u64, 2);
            assert(out@ =~= before + yyyymmdd(t.day_of()));
        },
        None => {},
    }
}

/// Why text tells no date.
#[derive(Clone, Copy, Debug, PartialEq, Eq, Structural)]
pub enum DateError {
    OutOfRange,
    Impossible,
    NotEnough,
    Invalid,
    TooShort,
    TooLong,
    BadFormat,
}

impl DateError {
    /// The reason in words.
    pub open spec fn words(self) -> Seq<char> {
        match self {
            DateError::OutOfRange => "input is out of range"@,
            DateError::Impossible => "no possible date and time matching input"@,
            DateError::NotEnough => "input is not enough for unique date and time"@,
            DateError::Invalid => "input contains invalid characters"@,
            DateError::TooShort => "premature end of input"@,
            DateError::TooLong => "trailing input"@,
            DateError::BadFormat => "bad or unsupported format string"@,
        }
    }

    /// The reason in words.
    pub fn message(self) -> (s: &'static str)
        ensures
            s@ == self.words(),
    {
        match self {
            DateError::OutOfRange => "input is out of range",
            DateError::Impossible => "no possible date and time matching input",
            DateError::NotEnough => "input is not enough for unique date and time",
            DateError::Invalid => "input contains invalid characters",
            DateError::TooShort => "premature end of input",
            DateError::TooLong => "trailing input",
            DateError::BadFormat => "bad or unsupported format string",
        }
    }
}

/// The date that text tells as year, month and day without separators.
pub uninterp spec fn date_in(text: Seq<char>) -> Result<(i32, u32, u32), DateError>;

/// Whether all bytes are decimal digits.
pub open spec fn all_digits(s: Seq<u8>) -> bool {
    forall|k: int| 0 <= k < s.len() ==> 48 <= #[trigger] s[k] <= 57
}

/// The number of two digits from place `at` on.
pub open spec fn two_digits(s: Seq<u8>, at: int) -> int {
    (s[at] - 48) * 10 + (s[at + 1] - 48)
}

/// The year that eight digits tell.
pub open spec fn year_of(s: Seq<u8>) -> int {
    two_digits(s, 0) * 100 + two_digits(s, 2)
}

/// Whether eight digits tell a date that there is.
pub open spec fn tells_date(s: Seq<u8>) -> bool {
    s.len() == 8 && all_digits(s) && is_date(year_of(s), two_digits(s, 4), two_digits(s, 6))
}

/// The date that text tells as year, month and day without separators.
///
/// This is `chrono::NaiveDate::parse_from_str` with the format `%Y%m%d`, and the
/// year, month and day of what it returns, or the kind of its error. It is taken
/// to give the same for the same text, to give only dates that there are, and to
/// read eight digits as a year of four, a month of two and a day of two, which it
/// takes where there is such a date. What it makes of other text is not stated.
#[verifier::external_body]
pub(crate) fn read_date(text: &str) -> (r: Result<(i32, u32, u32), DateError>)
    ensures
        r == date_in(text@),
        r matches Ok((y, m, d)) ==> is_date(y as int, m as int, d as int),
        ({
            let b = encode_utf8(text@);
            b.len() == 8 && all_digits(b) ==> {
                &&& r is Ok <==> tells_date(b)
                &&& r matches Ok((y, m, d)) ==> y == year_of(b) && m == two_digits(b, 4) && d
                    == two_digits(b, 6)
            }
        }),
{
    match chrono::NaiveDate::parse_from_str(text, "%Y%m%d") {
        Ok(d) => Ok((d.year(), d.month(), d.day())),
        Err(e) => Err(match e.kind() {
            ParseErrorKind::OutOfRange => DateError::OutOfRange,
            ParseErrorKind::Impossible => DateError::Impossible,
            ParseErrorKind::NotEnough => DateError::NotEnough,
            ParseErrorKind::Invalid => DateError::Invalid,
            ParseErrorKind::TooShort => DateError::TooShort,
            ParseErrorKind::TooLong => DateError::TooLong,
            _ => DateError::BadFormat,
        }),
    }
}

} // verus!
