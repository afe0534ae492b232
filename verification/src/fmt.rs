//! Durations, masses, distances and comparisons in words.
use crate::given;
use crate::number::Real;
use crate::text;
use vstd::prelude::*;
use vstd::string::*;

verus! {

/// The bits of 1000.
pub const THOUSAND: u64 = 0x408F_4000_0000_0000;

/// The bits of a million.
pub const MILLION: u64 = 0x412E_8480_0000_0000;

/// The bits of 1e-12, below which a benchmark counts as 0.
pub const NO_BENCHMARK: u64 = 0x3D71_9799_812D_EA11;

/// The bits of 1e-9, below which a difference counts as none.
pub const NO_DIFFERENCE: u64 = 0x3E11_2E0B_E826_D695;

/// Whole days of a duration.
pub open spec fn days(total: nat) -> nat {
    total / 86_400
}

/// Whole hours beyond the days.
pub open spec fn hours(total: nat) -> nat {
    total % 86_400 / 3600
}

/// Whole minutes beyond the hours.
pub open spec fn minutes(total: nat) -> nat {
    total % 3600 / 60
}

/// Seconds beyond the minutes.
pub open spec fn seconds(total: nat) -> nat {
    total % 60
}

/// A duration in words: units before the first that is not 0 are left out, but not
/// the seconds.
pub open spec fn duration_words(total: nat) -> Seq<char> {
    let s = text::decimal(seconds(total)) + "s"@;
    let ms = text::decimal(minutes(total)) + "m "@ + s;
    let hms = text::decimal(hours(total)) + "h "@ + ms;
    if days(total) > 0 {
        text::decimal(days(total)) + "d "@ + hms
    } else if hours(total) > 0 {
        hms
    } else if minutes(total) > 0 {
        ms
    } else {
        s
    }
}

/// The parts of a duration make up the whole of it, and none holds a larger unit.
pub proof fn law_parts_make_the_whole(total: nat)
    ensures
        days(total) * 86_400 + hours(total) * 3600 + minutes(total) * 60 + seconds(total) == total,
        hours(total) < 24,
        minutes(total) < 60,
        seconds(total) < 60,
{
}

/// A number of whole seconds in words.
pub fn format_duration_breakdown(total: u64) -> (s: String)
    ensures
        s@ == duration_words(total as nat),
{
    let days: u64 = total / 86_400;
    let hours: u64 = total % 86_400 / 3600;
    let minutes: u64 = total % 3600 / 60;
    let seconds: u64 = total % 60;
    let mut s: String = "".to_owned();
    proof {
        reveal_strlit("");
    }
    if days > 0 {
        text::push_decimal(&mut s, days);
        s.append("d ");
    }
    if days > 0 || hours > 0 {
        text::push_decimal(&mut s, hours);
        s.append("h ");
    }
    if days > 0 || hours > 0 || minutes > 0 {
        text::push_decimal(&mut s, minutes);
        s.append("m ");
    }
    text::push_decimal(&mut s, seconds);
    s.append("s");
    assert(s@ =~= duration_words(total as nat));
    s
}

/// A mass of fuel in words: in tonnes from one tonne on, in kilograms below.
/// `tonnes` and `kilos` write a number of kilograms in those units.
pub fn format_fuel_auto<T: Fn(Real) -> String, K: Fn(Real) -> String>(
    kg: Real,
    tonnes: &T,
    kilos: &K,
) -> (s: String)
    requires
        given::worded1(*tonnes),
        given::worded1(*kilos),
    ensures
        (Real { bits: THOUSAND }).at_most(kg) ==> s@ == given::words1(*tonnes, kg) + " t"@,
        !(Real { bits: THOUSAND }).at_most(kg) ==> s@ == given::words1(*kilos, kg) + " kg"@,
{
    if (Real { bits: THOUSAND }).le(kg) {
        let mut s: String = tonnes(kg);
        s.append(" t");
        s
    } else {
        let mut s: String = kilos(kg);
        s.append(" kg");
        s
    }
}

/// A distance over land in words; `km` writes a number of metres in kilometres.
pub fn format_land_km<K: Fn(Real) -> String>(metres: Real, km: &K) -> (s: String)
    requires
        given::worded1(*km),
    ensures
        s@ == given::words1(*km, metres) + " km"@,
{
    let mut s: String = km(metres);
    s.append(" km");
    s
}

/// How good a route is, without its sign, in words: in millions from one million on,
/// in thousands below. `millions` and `thousands` write a number in those units.
pub fn format_fitness_magnitude<M: Fn(Real) -> String, K: Fn(Real) -> String>(
    value: Real,
    millions: &M,
    thousands: &K,
) -> (s: String)
    requires
        given::worded1(*millions),
        given::worded1(*thousands),
    ensures
        (Real { bits: MILLION }).at_most(value.unsigned()) ==> s@ == given::words1(
            *millions,
            value.unsigned(),
        ) + "M"@,
        !(Real { bits: MILLION }).at_most(value.unsigned()) ==> s@ == given::words1(
            *thousands,
            value.unsigned(),
        ) + "K"@,
{
    let size = value.abs();
    if (Real { bits: MILLION }).le(size) {
        let mut s: String = millions(size);
        s.append("M");
        s
    } else {
        let mut s: String = thousands(size);
        s.append("K");
        s
    }
}

/// What is said of a search that differs from the benchmark by `diff`.
pub open spec fn delta_words<P: Fn(Real, Real) -> String>(
    diff: Real,
    bench: Real,
    larger_is_better: bool,
    percent: P,
) -> Seq<char> {
    let zero = Real { bits: 0 };
    let better = if larger_is_better {
        zero.below(diff)
    } else {
        diff.below(zero)
    };
    if bench.unsigned().below(Real { bits: NO_BENCHMARK }) {
        "PSO N/A"@
    } else if diff.unsigned().below(Real { bits: NO_DIFFERENCE }) {
        "PSO equal"@
    } else if better {
        "PSO "@ + given::words2(percent, diff.unsigned(), bench.unsigned()) + "% better"@
    } else {
        "PSO "@ + given::words2(percent, diff.unsigned(), bench.unsigned()) + "% worse"@
    }
}

/// How a search did against the benchmark, in words. `larger_is_better` tells which
/// way is better, `minus` subtracts, and `percent` writes what share the one number
/// is of the other.
pub fn format_pso_delta<M: Fn(Real, Real) -> Real, P: Fn(Real, Real) -> String>(
    pso: Real,
    bench: Real,
    larger_is_better: bool,
    minus: &M,
    percent: &P,
) -> (s: String)
    requires
        given::settled2(*minus),
        given::worded2(*percent),
    ensures
        s@ == delta_words(given::gives2(*minus, pso, bench), bench, larger_is_better, *percent),
{
    let diff = minus(pso, bench);
    if bench.abs().lt(Real { bits: NO_BENCHMARK }) {
        return "PSO N/A".to_owned();
    }
    if diff.abs().lt(Real { bits: NO_DIFFERENCE }) {
        return "PSO equal".to_owned();
    }
    let share: String = percent(diff.abs(), bench.abs());
    let better: bool = if larger_is_better {
        (Real { bits: 0 }).lt(diff)
    } else {
        diff.lt(Real { bits: 0 })
    };
    let mut s: String = "PSO ".to_owned();
    s.append(share.as_str());
    s.append(if better { "% better" } else { "% worse" });
    s
}

/// A route is told to be better or worse than the benchmark by the sign of the difference: where
/// more is better, a difference above zero is better and one below zero worse, and where less
/// is better the other way round.
pub proof fn law_better_and_worse<P: Fn(Real, Real) -> String>(
    diff: Real,
    bench: Real,
    larger_is_better: bool,
    percent: P,
)
    requires
        !bench.unsigned().below(Real { bits: 0x3D71_9799_812D_EA11 }),
        !diff.unsigned().below(Real { bits: 0x3E11_2E0B_E826_D695 }),
        (Real { bits: 0 }).below(diff) || diff.below(Real { bits: 0 }),
    ensures
        delta_words(diff, bench, larger_is_better, percent) == "PSO "@ + given::words2(
            percent,
            diff.unsigned(),
            bench.unsigned(),
        ) + (if (Real { bits: 0 }).below(diff) == larger_is_better {
            "% better"@
        } else {
            "% worse"@
        }),
{
}

/// Nothing is told of a benchmark of next to nothing, and next to no difference is none.
pub proof fn law_no_benchmark_and_no_difference<P: Fn(Real, Real) -> String>(
    diff: Real,
    bench: Real,
    larger_is_better: bool,
    percent: P,
)
    ensures
        bench.unsigned().below(Real { bits: 0x3D71_9799_812D_EA11 }) ==> delta_words(
            diff,
            bench,
            larger_is_better,
            percent,
        ) == "PSO N/A"@,
        !bench.unsigned().below(Real { bits: 0x3D71_9799_812D_EA11 }) && diff.unsigned().below(
            Real { bits: 0x3E11_2E0B_E826_D695 },
        ) ==> delta_words(diff, bench, larger_is_better, percent) == "PSO equal"@,
{
}

/// A duration shows its parts from the largest that is not nothing down to the seconds.
pub proof fn law_duration_shows_its_parts(d: nat, h: nat, m: nat, s: nat)
    requires
        h < 24,
        m < 60,
        s < 60,
    ensures
        ({
            let total = ((d * 24 + h) * 60 + m) * 60 + s;
            let ss = text::decimal(s) + "s"@;
            let ms = text::decimal(m) + "m "@ + ss;
            let hms = text::decimal(h) + "h "@ + ms;
            duration_words(total as nat) == (if d > 0 {
                text::decimal(d) + "d "@ + hms
            } else if h > 0 {
                hms
            } else if m > 0 {
                ms
            } else {
                ss
            })
        }),
{
    let total = ((d * 24 + h) * 60 + m) * 60 + s;
    assert(days(total as nat) == d && hours(total as nat) == h && minutes(total as nat) == m && seconds(
        total as nat,
    ) == s);
}

} // verus!
