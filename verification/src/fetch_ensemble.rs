//! Ensemble forecasts: which members there are and where their files lie.
use crate::calendar;
use crate::calendar::UtcTime;
use crate::text;
use vstd::prelude::*;
use vstd::string::*;

verus! {

/// A member of the ensemble: 0 is the control run, 1 to 30 are perturbed runs.
#[derive(Clone, Copy, Debug, PartialEq, Eq, PartialOrd, Ord, Hash, Structural)]
pub struct GefsMember(pub u8);

impl GefsMember {
    /// Whether there is such a member.
    pub open spec fn exists_in_ensemble(self) -> bool {
        self.0 <= 30
    }

    /// How the names of the member's files begin.
    pub open spec fn prefix(self) -> Seq<char> {
        if self.0 == 0 {
            "gec00"@
        } else {
            "gep"@ + text::padded(self.0 as nat, 2)
        }
    }

    /// The control run.
    pub fn control() -> (m: GefsMember)
        ensures
            m == GefsMember(0),
    {
        GefsMember(0)
    }

    /// Whether there is such a member.
    pub fn is_valid(self) -> (r: bool)
        ensures
            r == self.exists_in_ensemble(),
    {
        self.0 <= 30
    }

    /// How the names of the member's files begin: `gec00` for the control run,
    /// `gep` and two digits for the others.
    pub fn filename_prefix(self) -> (s: String)
        ensures
            s@ == self.prefix(),
    {
        if self.0 == 0 {
            "gec00".to_owned()
        } else {
            let mut s: String = "gep".to_owned();
            text::push_padded(&mut s, self.0 as u64, 2);
            s
        }
    }
}

/// How many members a wish for `k` gives.
pub open spec fn sample_size(k: nat) -> nat {
    if k > 31 {
        31
    } else {
        k
    }
}

/// The member at place `i` of a sample of `n`: the control run first, then the
/// perturbed runs at the middles of `n - 1` equal parts of the 30.
pub open spec fn sampled(n: nat, i: int) -> int {
    if i == 0 {
        0
    } else {
        (2 * i - 1) * 15 / (n - 1) + 1
    }
}

/// A sample of `k` members, the control run first and the perturbed runs spread
/// evenly over all 30. More than 31 are not to be had.
pub fn stride_sample_members(k: usize) -> (members: Vec<GefsMember>)
    ensures
        members@.len() == sample_size(k as nat),
        forall|i: int|
            0 <= i < members@.len() ==> (#[trigger] members@[i]).0 == sampled(sample_size(k as nat), i)
                && members@[i].exists_in_ensemble(),
        forall|i: int, j: int|
            0 <= i < j < members@.len() ==> (#[trigger] members@[i]).0 < (#[trigger] members@[j]).0,
{
    let n: usize = if k > 31 {
        31
    } else {
        k
    };
    let mut members: Vec<GefsMember> = Vec::new();
    if n == 0 {
        return members;
    }
    members.push(GefsMember::control());
    let mut i: usize = 1;
    while i < n
        invariant
            1 <= i <= n <= 31,
            n == sample_size(k as nat),
            members@.len() == i,
            forall|j: int|
                0 <= j < i ==> (#[trigger] members@[j]).0 == sampled(n as nat, j)
                    && members@[j].exists_in_ensemble(),
        decreases n - i,
    {
        let parts: usize = n - 1;
        let at: usize = (2 * i - 1) * 15 / parts + 1;
        proof {
            lemma_sample_in_range(parts as int, i as int);
        }
        members.push(GefsMember(at as u8));
        i += 1;
    }
    proof {
        assert forall|i: int, j: int| 0 <= i < j < members@.len() implies (#[trigger] members@[i]).0 < (
        #[trigger] members@[j]).0 by {
            lemma_samples_rise(n as nat, i, j);
        }
    }
    members
}

/// The middle of a part lies among the 30.
proof fn lemma_sample_in_range(parts: int, i: int)
    requires
        1 <= i <= parts <= 30,
    ensures
        1 <= (2 * i - 1) * 15 / parts + 1 <= 30,
{
    assert((2 * i - 1) * 15 >= 0);
    assert((2 * i - 1) * 15 < 30 * parts);
    assert(0 <= (2 * i - 1) * 15 / parts < 30) by (nonlinear_arith)
        requires
            0 <= (2 * i - 1) * 15 < 30 * parts,
            parts > 0,
    ;
}

/// The members of a sample rise.
proof fn lemma_samples_rise(n: nat, i: int, j: int)
    requires
        n <= 31,
        0 <= i < j < n,
    ensures
        sampled(n, i) < sampled(n, j),
{
    let parts = n - 1;
    lemma_sample_in_range(parts, j);
    if i > 0 {
        let a = (2 * i - 1) * 15;
        let b = (2 * j - 1) * 15;
        assert(b >= a + 30);
        assert(a / parts < b / parts) by (nonlinear_arith)
            requires
                b >= a + 30,
                a >= 0,
                0 < parts <= 30,
        ;
    }
}

/// Where the file of a member for a lead time lies.
pub open spec fn gefs_url(cycle: UtcTime, forecast_hour: u32, member: GefsMember) -> Seq<char> {
    "https://noaa-gefs-pds.s3.amazonaws.com/gefs."@ + calendar::yyyymmdd(cycle.day_of()) + "/"@
        + text::padded(cycle.hour_of() as nat, 2) + "/atmos/pgrb2sp25/"@ + member.prefix() + ".t"@
        + text::padded(cycle.hour_of() as nat, 2) + "z.pgrb2s.0p25.f"@ + text::padded(
        forecast_hour as nat,
        3,
    )
}

/// Where the file of a member for a lead time lies.
pub fn gefs_url_for_frame(cycle: UtcTime, forecast_hour: u32, member: GefsMember) -> (url: String)
    requires
        cycle.wf(),
    ensures
        url@ == gefs_url(cycle, forecast_hour, member),
{
    let mut url: String = "https://noaa-gefs-pds.s3.amazonaws.com/gefs.".to_owned();
    calendar::push_yyyymmdd(&mut url, cycle);
    url.append("/");
    text::push_padded(&mut url, cycle.hour() as u64, 2);
    url.append("/atmos/pgrb2sp25/");
    let prefix: String = member.filename_prefix();
    url.append(prefix.as_str());
    url.append(".t");
    text::push_padded(&mut url, cycle.hour() as u64, 2);
    url.append("z.pgrb2s.0p25.f");
    text::push_padded(&mut url, forecast_hour as u64, 3);
    url
}

/// A sample of members holds as many as asked for, at most all 31. The control comes first;
/// the others are those that the middles of as many equal shares of the 30 perturbed members
/// fall on.
pub proof fn law_sample_is_spread_evenly(k: nat, i: int)
    requires
        0 <= i < sample_size(k),
    ensures
        sample_size(k) <= k && sample_size(k) <= 31 && (sample_size(k) == k || sample_size(k) == 31),
        ({
            let n = sample_size(k) as int;
            let m = sampled(sample_size(k), i);
            &&& i == 0 ==> m == 0
            &&& i > 0 ==> 1 <= m <= 30
            &&& i > 0 ==> (m - 1) * (2 * (n - 1)) <= 30 * (2 * i - 1) < m * (2 * (n - 1))
            &&& n == 31 ==> m == i
        }),
{
    let n = sample_size(k) as int;
    if i > 0 {
        let d = n - 1;
        let a = (2 * i - 1) * 15;
        let q = a / d;
        vstd::arithmetic::div_mod::lemma_fundamental_div_mod(a, d);
        vstd::arithmetic::div_mod::lemma_mod_bound(a, d);
        assert(q * (2 * d) <= 30 * (2 * i - 1) < (q + 1) * (2 * d)) by (nonlinear_arith)
            requires
                a == d * q + a % d,
                0 <= a % d < d,
                a == (2 * i - 1) * 15,
        ;
        assert(0 <= q < 30) by (nonlinear_arith)
            requires
                a == d * q + a % d,
                0 <= a % d < d,
                0 <= a < 30 * d,
        ;
    }
}

/// The control is the only member with the number 0, and there are 30 more.
pub proof fn law_members(m: GefsMember)
    ensures
        m.exists_in_ensemble() <==> m.0 < 31,
        m.0 == 0 ==> m.prefix() == "gec00"@,
        m.0 > 0 && m.0 < 100 ==> m.prefix().len() == 5 && m.prefix() == "gep"@ + text::padded(
            m.0 as nat,
            2,
        ),
{
    reveal_strlit("gep");
    text::law_decimal_has_no_zero_in_front(m.0 as nat);
    reveal_with_fuel(text::decimal, 3);
}

} // verus!
