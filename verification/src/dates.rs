//! What holds of dates, of how days are counted, and of dates as text.
use crate::calendar::{
    all_digits, civil_days, date_of_day, days_before_month, days_before_year, days_in_month, is_date,
    law_date_of_day, leap, tells_date, two_digits, year_of, yyyymmdd, UtcTime,
};
use crate::text;
use vstd::prelude::*;
use vstd::utf8::*;

verus! {

/// A year has 366 days where its number is divisible by four, and not by a hundred or by
/// four hundred, else 365.
pub proof fn law_length_of_a_year(y: int)
    ensures
        civil_days(y + 1, 1, 1) - civil_days(y, 1, 1) == (if y % 400 == 0 {
            366int
        } else if y % 100 == 0 {
            365
        } else if y % 4 == 0 {
            366
        } else {
            365
        }),
{
}

/// How many days each month has.
pub proof fn law_length_of_a_month(y: int, m: int)
    requires
        1 <= m < 12,
    ensures
        civil_days(y, m + 1, 1) - civil_days(y, m, 1) == (if m == 2 {
            civil_days(y + 1, 1, 1) - civil_days(y, 1, 1) - 337
        } else if m == 4 || m == 6 || m == 9 || m == 11 {
            30
        } else {
            31
        }),
{
    law_length_of_a_year(y);
}

/// Days of a month follow one another, and four hundred years have 146097 days. The first day
/// of 1970 has the number 0.
pub proof fn law_days_are_counted(y: int, m: int, d: int)
    ensures
        civil_days(y, m, d + 1) == civil_days(y, m, d) + 1,
        civil_days(y + 400, m, d) == civil_days(y, m, d) + 146_097,
        civil_days(1970, 1, 1) == 0,
{
    lemma_months_repeat(y, m);
    let x = y - 1;
    vstd::arithmetic::div_mod::lemma_hoist_over_denominator(x, 100, 4);
    vstd::arithmetic::div_mod::lemma_hoist_over_denominator(x, 4, 100);
    vstd::arithmetic::div_mod::lemma_hoist_over_denominator(x, 1, 400);
    assert(days_before_year(y + 400) == days_before_year(y) + 146_097);
    assert(days_before_month(1970, 1) == 0);
    assert(1969int / 4 == 492 && 1969int / 100 == 19 && 1969int / 400 == 4);
}

/// The days before a month are the same four hundred years later.
proof fn lemma_months_repeat(y: int, m: int)
    ensures
        days_before_month(y + 400, m) == days_before_month(y, m),
    decreases m,
{
    if m > 1 {
        lemma_months_repeat(y, m - 1);
        vstd::arithmetic::div_mod::lemma_mod_multiples_vanish(100, y, 4);
        vstd::arithmetic::div_mod::lemma_mod_multiples_vanish(4, y, 100);
        vstd::arithmetic::div_mod::lemma_mod_multiples_vanish(1, y, 400);
        assert(leap(y + 400) == leap(y));
    }
}

/// A time of day is told in hours since midnight, and a day in days since 1970: the two and
/// what is left of the hour make up the time.
pub proof fn law_hour_and_day(t: UtcTime)
    ensures
        0 <= t.seconds - (t.day_of() * 24 + t.hour_of()) * 3600 < 3600,
        0 <= t.hour_of() < 24,
{
}

/// Numbers filled up to two and to four characters, digit by digit.
pub proof fn lemma_padded_digits(n: nat)
    ensures
        n < 100 ==> text::padded(n, 2) == seq![text::digit(n / 10), text::digit(n % 10)],
        n < 10_000 ==> text::padded(n, 4) == seq![
            text::digit(n / 1000),
            text::digit(n / 100 % 10),
            text::digit(n / 10 % 10),
            text::digit(n % 10),
        ],
{
    reveal_with_fuel(text::decimal, 5);
    if n < 10_000 {
        if n < 10 {
            assert(text::padded(n, 4) =~= seq!['0', '0', '0', text::digit(n)]);
            assert(text::padded(n, 2) =~= seq!['0', text::digit(n)]);
        } else if n < 100 {
            assert(text::padded(n, 4) =~= seq!['0', '0', text::digit(n / 10), text::digit(n % 10)]);
            assert(text::padded(n, 2) =~= seq![text::digit(n / 10), text::digit(n % 10)]);
        } else if n < 1000 {
            assert(n / 10 / 10 == n / 100);
            assert(text::padded(n, 4) =~= seq![
                '0',
                text::digit(n / 100),
                text::digit(n / 10 % 10),
                text::digit(n % 10),
            ]);
        } else {
            assert(n / 10 / 10 == n / 100 && n / 10 / 10 / 10 == n / 1000);
            assert(text::padded(n, 4) =~= seq![
                text::digit(n / 1000),
                text::digit(n / 100 % 10),
                text::digit(n / 10 % 10),
                text::digit(n % 10),
            ]);
        }
    }
}

/// A day written as eight digits is read as the date that it has.
pub proof fn law_date_text_reads_back(y: int, m: int, d: int)
    requires
        is_date(y, m, d),
        0 <= y <= 9999,
    ensures
        ({
            let b = encode_utf8(yyyymmdd(civil_days(y, m, d)));
            &&& tells_date(b)
            &&& year_of(b) == y
            &&& two_digits(b, 4) == m
            &&& two_digits(b, 6) == d
        }),
{
    law_date_of_day(y, m, d);
    assert(days_in_month(y, m) <= 31);
    lemma_padded_digits(y as nat);
    lemma_padded_digits(m as nat);
    lemma_padded_digits(d as nat);
    let s = yyyymmdd(civil_days(y, m, d));
    let (a, b, c) = (y as nat, m as nat, d as nat);
    assert(s =~= seq![
        text::digit(a / 1000),
        text::digit(a / 100 % 10),
        text::digit(a / 10 % 10),
        text::digit(a % 10),
        text::digit(b / 10),
        text::digit(b % 10),
        text::digit(c / 10),
        text::digit(c % 10),
    ]);
    lemma_digits_join(a);
    lemma_digits_join(b);
    lemma_digits_join(c);
    lemma_digits_read(s);
}

/// Digits are as many bytes of digits.
pub proof fn lemma_digits_read(s: Seq<char>)
    requires
        forall|k: int| 0 <= k < s.len() ==> exists|d: nat| d < 10 && #[trigger] s[k] == text::digit(d),
    ensures
        ({
            let t = encode_utf8(s);
            &&& t.len() == s.len()
            &&& all_digits(t)
            &&& forall|k: int, d: nat|
                0 <= k < s.len() && d < 10 && #[trigger] s[k] == #[trigger] text::digit(d) ==> t[k] == 48 + d
        }),
{
    assert forall|k: int| 0 <= k < s.len() implies '\0' <= #[trigger] s[k] <= '\u{7f}' by {
        let d = choose|d: nat| d < 10 && s[k] == text::digit(d);
        text::law_digits_in_order(d);
    }
    is_ascii_chars_encode_utf8(s);
    let t = encode_utf8(s);
    assert forall|k: int, d: nat|
        0 <= k < s.len() && d < 10 && #[trigger] s[k] == #[trigger] text::digit(d) implies t[k] == 48 + d by {
        text::law_digits_in_order(d);
    }
    assert forall|k: int| 0 <= k < t.len() implies 48 <= #[trigger] t[k] <= 57 by {
        let d = choose|d: nat| d < 10 && s[k] == text::digit(d);
        text::law_digits_in_order(d);
    }
}

/// The digits of a number make it up.
pub proof fn lemma_digits_join(n: nat)
    requires
        n < 10_000,
    ensures
        n / 1000 < 10 && n / 100 % 10 < 10 && n / 10 % 10 < 10 && n % 10 < 10,
        ((n / 1000) * 10 + n / 100 % 10) * 100 + (n / 10 % 10) * 10 + n % 10 == n,
        n < 100 ==> n / 10 < 10 && (n / 10) * 10 + n % 10 == n,
{
}

} // verus!
