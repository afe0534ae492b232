//! Whether the grid and the values of a field can be unpacked: whether all that is told of
//! them is there, and all numbers on the way fit in 32 bits.
//!
//! In complex packing values stand in groups, each with a least value, a width in bits and
//! a length. Differences of the first or the second order may be packed in their place.
use crate::grib2::sections::{be16, be32, read_be16, read_be32, section, MAX_FILE_BYTES};
use vstd::prelude::*;

verus! {

/// The absolute value of a number whose highest bit is its sign.
pub open spec fn magnitude(v: int) -> int {
    if v >= 0x8000_0000 {
        v - 0x8000_0000
    } else {
        v
    }
}

/// Whether the points of the grid section at `at` can be told, or it is found out that
/// they cannot: there are columns and rows, and latitudes can be subtracted.
pub open spec fn grid_sound(f: Seq<u8>, at: int) -> bool {
    let template = be16(f, at + 12);
    let size = be32(f, at);
    (template == 0 || template == 1 || template == 40) && size >= 72 ==> {
        let ni = be32(f, at + 30);
        let nj = be32(f, at + 34);
        &&& 1 <= ni
        &&& 1 <= nj
        &&& ni * nj <= u32::MAX
        &&& magnitude(be32(f, at + 46)) < 0x4000_0000
        &&& magnitude(be32(f, at + 55)) < 0x4000_0000
        &&& template == 40 ==> nj <= 100_000
    }
}

/// Whether the points of a grid section can be told, or it is found out that they cannot.
pub fn is_grid_sound(f: &[u8], at: usize) -> (r: bool)
    requires
        section(f@, at as int, f@.len() as int, 3, 14),
    ensures
        r == grid_sound(f@, at as int),
{
    let len: usize = f.len();
    assert(at + 14 <= len);
    let template: u16 = read_be16(f, at + 12);
    let size: u32 = read_be32(f, at);
    if (template != 0 && template != 1 && template != 40) || size < 72 {
        return true;
    }
    let ni: u32 = read_be32(f, at + 30);
    let nj: u32 = read_be32(f, at + 34);
    if ni == 0 || nj == 0 {
        return false;
    }
    assert(ni * nj <= 0xFFFF_FFFF_FFFF_FFFF) by (nonlinear_arith)
        requires
            ni <= 0xFFFF_FFFF,
            nj <= 0xFFFF_FFFF,
            ni >= 0,
            nj >= 0,
    ;
    if ni as u64 * nj as u64 > u32::MAX as u64 {
        return false;
    }
    let first: u32 = read_be32(f, at + 46);
    let last: u32 = read_be32(f, at + 55);
    let first: u32 = if first >= 0x8000_0000 {
        first - 0x8000_0000
    } else {
        first
    };
    let last: u32 = if last >= 0x8000_0000 {
        last - 0x8000_0000
    } else {
        last
    };
    first < 0x4000_0000 && last < 0x4000_0000 && (template != 40 || nj <= 100_000)
}

/// Two to the power of `n`.
pub open spec fn two(n: nat) -> int
    decreases n,
{
    if n == 0 {
        1
    } else {
        2 * two((n - 1) as nat)
    }
}

/// What a bit of a byte counts, the first being the highest.
pub open spec fn weight(k: int) -> int {
    if k == 0 {
        128
    } else if k == 1 {
        64
    } else if k == 2 {
        32
    } else if k == 3 {
        16
    } else if k == 4 {
        8
    } else if k == 5 {
        4
    } else if k == 6 {
        2
    } else {
        1
    }
}

/// A bit of a file, counted from its first.
pub open spec fn bit(f: Seq<u8>, p: int) -> int {
    (f[p / 8] as int / weight(p % 8)) % 2
}

/// The number of `n` bits from bit `p` on.
pub open spec fn bits(f: Seq<u8>, p: int, n: nat) -> int
    decreases n,
{
    if n == 0 {
        0
    } else {
        2 * bits(f, p, (n - 1) as nat) + bit(f, p + n - 1)
    }
}

/// Powers of two up to the 32nd are small.
proof fn lemma_two_steps(n: nat)
    requires
        n <= 32,
    ensures
        1 <= two(n) <= 0x1_0000_0000,
        n <= 31 ==> two(n) <= 0x8000_0000,
        n <= 30 ==> two(n) <= 0x4000_0000,
{
    reveal_with_fuel(two, 34);
}

/// The number of `n` bits from bit `p` on.
fn read_bits(f: &[u8], p: u64, n: u8) -> (v: u64)
    requires
        n <= 32,
        p + n <= 8 * f@.len(),
        f@.len() <= MAX_FILE_BYTES,
    ensures
        v == bits(f@, p as int, n as nat),
        v < two(n as nat),
        v < 0x1_0000_0000,
        n <= 31 ==> v < 0x8000_0000,
{
    let len: usize = f.len();
    let mut v: u64 = 0;
    let mut k: u8 = 0;
    while k < n
        invariant
            k <= n <= 32,
            p + n <= 8 * len,
            len == f@.len(),
            len <= MAX_FILE_BYTES,
            v == bits(f@, p as int, k as nat),
            v < two(k as nat),
        decreases n - k,
    {
        proof {
            lemma_two_steps(k as nat);
        }
        let q: u64 = p + k as u64;
        let at: usize = (q / 8) as usize;
        let w: u8 = match q % 8 {
            0 => 128,
            1 => 64,
            2 => 32,
            3 => 16,
            4 => 8,
            5 => 4,
            6 => 2,
            _ => 1,
        };
        let b: u64 = ((f[at] / w) % 2) as u64;
        v = 2 * v + b;
        k += 1;
    }
    proof {
        lemma_two_steps(n as nat);
    }
    v
}

/// How values are packed in groups.
#[derive(Clone, Copy, Debug, PartialEq, Eq, Structural)]
pub struct Packing {
    /// Bits of a least value.
    pub ref_bits: u8,
    /// Which values are missing: none, the greatest, or the two greatest.
    pub missing: u8,
    pub groups: u32,
    /// The least width, and bits of what is added to it.
    pub width_ref: u8,
    pub width_bits: u8,
    /// The least length, what a step adds to it, bits of the steps, and the last length.
    pub len_ref: u32,
    pub len_inc: u8,
    pub len_last: u32,
    pub len_bits: u8,
    /// The order of the differences, 0 for none, and the bytes of what they start from.
    pub order: u8,
    pub octets: u8,
}

/// How the representation section at `at` says that values are packed.
pub open spec fn packing_at(f: Seq<u8>, at: int, spatial: bool) -> Packing {
    Packing {
        ref_bits: f[at + 19],
        missing: f[at + 22],
        groups: be32(f, at + 31) as u32,
        width_ref: f[at + 35],
        width_bits: f[at + 36],
        len_ref: be32(f, at + 37) as u32,
        len_inc: f[at + 41],
        len_last: be32(f, at + 42) as u32,
        len_bits: f[at + 46],
        order: if spatial {
            f[at + 47]
        } else {
            0
        },
        octets: if spatial {
            f[at + 48]
        } else {
            0
        },
    }
}

/// Whether a representation section of complex packing is one that is unpacked at all:
/// other kinds of numbers, of groups and of differences are turned down.
pub open spec fn unpacked(f: Seq<u8>, at: int, spatial: bool) -> bool {
    &&& f[at + 20] == 0
    &&& f[at + 21] == 1
    &&& f[at + 22] <= 2
    &&& spatial ==> (f[at + 47] == 1 || f[at + 47] == 2 || f[at + 47] == 255) && 1 <= f[at + 48] <= 4
}

/// So many bits in bytes.
pub open spec fn octets_of(n: int) -> int {
    (n + 7) / 8
}

impl Packing {
    /// Bytes of what the differences start from.
    pub open spec fn extra(self) -> int {
        if self.order == 0 {
            0
        } else {
            (self.order + 1) * self.octets
        }
    }

    /// Where the least values end, in bytes of the data.
    pub open spec fn refs_end(self) -> int {
        self.extra() + octets_of(self.groups * self.ref_bits)
    }

    /// Where the widths end.
    pub open spec fn widths_end(self) -> int {
        self.refs_end() + octets_of(self.groups * self.width_bits)
    }

    /// Where the lengths end.
    pub open spec fn lens_end(self) -> int {
        self.widths_end() + octets_of(self.groups * self.len_bits)
    }

    /// Whether what is told of the groups fits in the data, `len` bytes long, and in
    /// numbers.
    pub open spec fn fits(self, len: int) -> bool {
        &&& self.groups >= 1
        &&& self.groups * self.ref_bits < 0xFFFF_FFF0
        &&& self.groups * self.width_bits < 0xFFFF_FFF0
        &&& self.groups * self.len_bits < 0xFFFF_FFF0
        &&& self.ref_bits <= 32
        &&& self.width_bits <= 32
        &&& self.len_bits <= 32
        &&& self.lens_end() <= len
    }

    /// The least value of group `k` of data that begins at byte `base`.
    pub open spec fn ref_of(self, f: Seq<u8>, base: int, k: int) -> int {
        bits(f, 8 * (base + self.extra()) + k * self.ref_bits, self.ref_bits as nat)
    }

    /// The width of group `k`.
    pub open spec fn width_of(self, f: Seq<u8>, base: int, k: int) -> int {
        self.width_ref + bits(
            f,
            8 * (base + self.refs_end()) + k * self.width_bits,
            self.width_bits as nat,
        )
    }

    /// The length of group `k`.
    pub open spec fn len_of(self, f: Seq<u8>, base: int, k: int) -> int {
        if k + 1 < self.groups {
            self.len_ref + self.len_inc * bits(
                f,
                8 * (base + self.widths_end()) + k * self.len_bits,
                self.len_bits as nat,
            )
        } else {
            self.len_last as int
        }
    }

    /// The bits of the values of group `k`.
    pub open spec fn size_of(self, f: Seq<u8>, base: int, k: int) -> int {
        self.width_of(f, base, k) * self.len_of(f, base, k)
    }
}

/// A number with its sign, out of one whose highest bit is `sign`.
pub open spec fn with_sign(v: int, sign: int) -> int {
    if v >= sign {
        sign - v
    } else {
        v
    }
}

/// The number of up to four bytes whose highest bit is its sign.
pub open spec fn signed(f: Seq<u8>, at: int, octets: int) -> int {
    if octets == 1 {
        with_sign(f[at] as int, 0x80)
    } else if octets == 2 {
        with_sign(be16(f, at), 0x8000)
    } else if octets == 3 {
        with_sign(f[at] * 0x1_0000 + be16(f, at + 1), 0x80_0000)
    } else {
        with_sign(be32(f, at), 0x8000_0000)
    }
}

/// Whether a number fits in 32 bits with its sign.
pub open spec fn small(v: int) -> bool {
    i32::MIN <= v <= i32::MAX
}

/// How far differences have been added up.
#[derive(Clone, Copy, Debug, PartialEq, Eq, Structural)]
pub struct Sum {
    /// How many values were there, up to two.
    pub count: u8,
    /// The last value, and the one before it.
    pub last: i64,
    pub before: i64,
}

/// What the first values are, and what all differences are greater than.
#[derive(Clone, Copy, Debug, PartialEq, Eq, Structural)]
pub struct Start {
    pub first: i64,
    pub second: i64,
    pub least: i64,
}

/// The sum after the next difference, unless a number does not fit.
pub open spec fn summed(order: u8, start: Start, s: Sum, v: int) -> Option<Sum> {
    if !small(v) {
        None
    } else if order == 0 {
        Some(s)
    } else if s.count == 0 {
        Some(Sum { count: 1, last: start.first, before: s.before })
    } else if order == 1 {
        if small(v + s.last) {
            Some(Sum { count: 1, last: (v + s.last) as i64, before: s.before })
        } else {
            None
        }
    } else if s.count == 1 {
        Some(Sum { count: 2, last: start.second, before: s.last })
    } else if small(2 * s.last) && small(v + 2 * s.last) && small(v + 2 * s.last - s.before) {
        Some(Sum { count: 2, last: (v + 2 * s.last - s.before) as i64, before: s.last })
    } else {
        None
    }
}

/// Whether a packed number of some bits stands for a missing value.
pub open spec fn is_missing(missing: u8, v: int, n: nat) -> bool {
    (missing > 0 && v == two(n) - 1) || (missing == 2 && v == two(n) - 2)
}

/// Whether the least value of a group without widths can stand for its values: it tells of
/// missing ones, or a number that fits.
pub open spec fn constant_sound(p: Packing, start: Start, least: int) -> bool {
    p.ref_bits <= 30 && (is_missing(p.missing, least, p.ref_bits as nat) || small(
        least + start.least,
    ))
}

/// The sum after values `m` and on of a group, unless a number does not fit. Only the first
/// `left` values are added up; the others have to fit all the same.
pub open spec fn group_sum(
    p: Packing,
    start: Start,
    f: Seq<u8>,
    at: int,
    least: int,
    width: int,
    len: int,
    left: int,
    m: int,
    s: Sum,
) -> Option<Sum>
    decreases len - m,
{
    if m >= len || (width == 0 && m >= left) {
        Some(s)
    } else {
        let v = if width == 0 {
            least
        } else {
            bits(f, at + m * width, width as nat)
        };
        let gone = if width == 0 {
            is_missing(p.missing, v, p.ref_bits as nat)
        } else {
            is_missing(p.missing, v, width as nat)
        };
        let whole = if width == 0 {
            v
        } else {
            v + least
        };
        let next = if gone {
            Some(s)
        } else if !small(whole) || !small(whole + start.least) {
            None
        } else if m < left {
            summed(p.order, start, s, whole + start.least)
        } else {
            Some(s)
        };
        match next {
            None => None,
            Some(t) => group_sum(p, start, f, at, least, width, len, left, m + 1, t),
        }
    }
}

/// The sum after group `k`, unless it cannot be unpacked. `left` more values are wanted. The
/// values of the group begin `done` bits into those of all groups, which are at byte `base`
/// of the file and `len` bytes long with all that is told of the groups.
pub open spec fn group_step(
    p: Packing,
    start: Start,
    f: Seq<u8>,
    base: int,
    len: int,
    k: int,
    done: int,
    left: int,
    s: Sum,
) -> Option<Sum> {
    let least = p.ref_of(f, base, k);
    let width = p.width_of(f, base, k);
    let count = p.len_of(f, base, k);
    if least < 0x8000_0000 && width <= 31 && (width == 0 ==> constant_sound(p, start, least)) && count
        <= u32::MAX && p.size_of(f, base, k) < 0xFFFF_FFF0 && done + p.size_of(f, base, k) <= 8 * (len
        - p.lens_end()) {
        group_sum(p, start, f, 8 * (base + p.lens_end()) + done, least, width, count, left, 0, s)
    } else {
        None
    }
}

/// Whether groups `k` and on can be unpacked, as far as `left` more values are wanted.
pub open spec fn groups_sound(
    p: Packing,
    start: Start,
    f: Seq<u8>,
    base: int,
    len: int,
    k: int,
    done: int,
    left: int,
    s: Sum,
) -> bool
    decreases p.groups - k,
{
    if k >= p.groups || left <= 0 {
        true
    } else {
        match group_step(p, start, f, base, len, k, done, left, s) {
            None => false,
            Some(t) => groups_sound(
                p,
                start,
                f,
                base,
                len,
                k + 1,
                done + p.size_of(f, base, k),
                left - p.len_of(f, base, k),
                t,
            ),
        }
    }
}

/// What the differences of data at byte `base` start from.
pub open spec fn start_at(p: Packing, f: Seq<u8>, base: int) -> Start {
    if p.order == 0 {
        Start { first: 0, second: 0, least: 0 }
    } else {
        Start {
            first: signed(f, base, p.octets as int) as i64,
            second: if p.order == 1 {
                0
            } else {
                signed(f, base + p.octets, p.octets as int) as i64
            },
            least: signed(f, base + p.order * p.octets, p.octets as int) as i64,
        }
    }
}

/// Whether data in groups can be unpacked, or it is found out that they are of a kind that
/// is not.
pub open spec fn complex_sound(f: Seq<u8>, representation: int, data: int, spatial: bool) -> bool {
    let p = packing_at(f, representation, spatial);
    let len = be32(f, data) - 5;
    unpacked(f, representation, spatial) ==> p.order <= 2 && p.fits(len) && groups_sound(
        p,
        start_at(p, f, data + 5),
        f,
        data + 5,
        len,
        0,
        0,
        be32(f, representation + 5),
        Sum { count: 0, last: 0, before: 0 },
    )
}

/// Whether runs of equal values from value `m` on can be unpacked. `base` is the least
/// number that tells of a run; `factor` is what the next such number counts, and `out` how
/// many values there are so far, none before the first.
pub open spec fn runs_sound(
    f: Seq<u8>,
    at: int,
    count: int,
    n: nat,
    base: int,
    m: int,
    factor: int,
    out: int,
) -> bool
    decreases count - m,
{
    if m >= count {
        true
    } else {
        let v = bits(f, at + m * n, n);
        if v < base {
            out < u32::MAX && runs_sound(f, at, count, n, base, m + 1, 1, out + 1)
        } else if out == 0 {
            true
        } else {
            &&& out + (v - base) * factor <= u32::MAX
            &&& factor * (two(n) - base) <= u32::MAX
            &&& runs_sound(
                f,
                at,
                count,
                n,
                base,
                m + 1,
                factor * (two(n) - base),
                out + (v - base) * factor,
            )
        }
    }
}

/// Whether data in runs of equal values can be unpacked.
pub open spec fn run_length_sound(f: Seq<u8>, representation: int, data: int) -> bool {
    let n = f[representation + 11] as nat;
    let base = be16(f, representation + 12) + 1;
    let len = be32(f, data) - 5;
    &&& 1 <= n <= 15
    &&& base <= two(n)
    &&& runs_sound(f, 8 * (data + 5), 8 * len / n as int, n, base, 0, 1, 0)
}

/// Whether a template of a representation is known.
pub open spec fn known_template(t: int) -> bool {
    0 <= t <= 4 || 40 <= t <= 42 || 50 <= t <= 51 || t == 53 || t == 61 || t == 200
}

/// Whether the values of a field can be unpacked, or it is found out that they are of a
/// kind that is not. A representation section that is too short for its template is found
/// out.
pub open spec fn values_sound(f: Seq<u8>, representation: int, data: int) -> bool {
    let template = be16(f, representation + 9);
    let size = be32(f, representation);
    &&& known_template(template)
    &&& template == 2 && size >= 47 ==> complex_sound(f, representation, data, false)
    &&& template == 3 && size >= 49 ==> complex_sound(f, representation, data, true)
    &&& template == 200 && size >= 17 ==> run_length_sound(f, representation, data)
}

/// A number with its sign, out of one whose highest bit is `sign`.
fn put_sign(v: u32, sign: u32) -> (r: i64)
    requires
        0 < sign <= 0x8000_0000,
        v < 2 * sign,
    ensures
        r == with_sign(v as int, sign as int),
        -0x7FFF_FFFF <= r <= 0x7FFF_FFFF,
{
    if v >= sign {
        sign as i64 - v as i64
    } else {
        v as i64
    }
}

/// The number of up to four bytes whose highest bit is its sign.
fn read_signed(f: &[u8], at: usize, octets: u8) -> (r: i64)
    requires
        1 <= octets <= 4,
        at + octets <= f@.len(),
    ensures
        r == signed(f@, at as int, octets as int),
        -0x7FFF_FFFF <= r <= 0x7FFF_FFFF,
{
    let len: usize = f.len();
    assert(at + octets <= len);
    if octets == 1 {
        put_sign(f[at] as u32, 0x80)
    } else if octets == 2 {
        put_sign(read_be16(f, at) as u32, 0x8000)
    } else if octets == 3 {
        put_sign(f[at] as u32 * 0x1_0000 + read_be16(f, at + 1) as u32, 0x80_0000)
    } else {
        put_sign(read_be32(f, at), 0x8000_0000)
    }
}

/// How a representation section says that values are packed.
fn read_packing(f: &[u8], at: usize, spatial: bool) -> (p: Packing)
    requires
        at + 47 <= f@.len(),
        spatial ==> at + 49 <= f@.len(),
    ensures
        p == packing_at(f@, at as int, spatial),
{
    let len: usize = f.len();
    assert(at + 47 <= len);
    Packing {
        ref_bits: f[at + 19],
        missing: f[at + 22],
        groups: read_be32(f, at + 31),
        width_ref: f[at + 35],
        width_bits: f[at + 36],
        len_ref: read_be32(f, at + 37),
        len_inc: f[at + 41],
        len_last: read_be32(f, at + 42),
        len_bits: f[at + 46],
        order: if spatial {
            f[at + 47]
        } else {
            0
        },
        octets: if spatial {
            f[at + 48]
        } else {
            0
        },
    }
}

/// Number `k` of `groups` numbers of `n` bits each, which begin at byte `at`.
fn read_packed(f: &[u8], at: usize, groups: u32, n: u8, k: u32) -> (v: u64)
    requires
        n <= 32,
        k < groups,
        at + octets_of(groups * n) <= f@.len(),
        f@.len() <= MAX_FILE_BYTES,
    ensures
        v == bits(f@, 8 * at + k * n, n as nat),
        v < two(n as nat),
        v < 0x1_0000_0000,
{
    let len: usize = f.len();
    proof {
        assert(k * n + n <= groups * n && k * n >= 0) by (nonlinear_arith)
            requires
                k + 1 <= groups,
                n >= 0,
                k >= 0,
        ;
        assert(groups * n <= 0xFFFF_FFFF * 32) by (nonlinear_arith)
            requires
                0 <= groups <= 0xFFFF_FFFF,
                0 <= n <= 32,
        ;
        assert(at <= len);
    }
    read_bits(f, 8 * at as u64 + k as u64 * n as u64, n)
}

/// Two to the power of `n`.
fn power_of_two(n: u8) -> (t: u64)
    requires
        n <= 31,
    ensures
        t == two(n as nat),
        1 <= t <= 0x8000_0000,
{
    let mut t: u64 = 1;
    let mut k: u8 = 0;
    while k < n
        invariant
            k <= n <= 31,
            t == two(k as nat),
        decreases n - k,
    {
        proof {
            lemma_two_steps(k as nat);
        }
        t = 2 * t;
        k += 1;
    }
    proof {
        lemma_two_steps(n as nat);
    }
    t
}

/// Whether a packed number of some bits stands for a missing value.
fn stands_for_none(missing: u8, v: u64, n: u8) -> (r: bool)
    requires
        n <= 31,
        v < 0x8000_0000,
    ensures
        r == is_missing(missing, v as int, n as nat),
{
    if missing == 0 {
        return false;
    }
    let t: u64 = power_of_two(n);
    (missing > 0 && v + 1 == t) || (missing == 2 && v + 2 == t)
}

/// Whether the sums of what was added up so far are small.
spec fn tame(s: Sum) -> bool {
    small(s.last as int) && small(s.before as int)
}

/// Whether a number fits in 32 bits with its sign.
fn is_small(v: i64) -> (r: bool)
    ensures
        r == small(v as int),
{
    -0x8000_0000 <= v && v <= 0x7FFF_FFFF
}

/// The sum after the next difference, unless a number does not fit.
fn add_up(order: u8, start: Start, s: Sum, v: i64) -> (r: Option<Sum>)
    requires
        -0x4_0000_0000 <= v <= 0x4_0000_0000,
        small(start.first as int),
        small(start.second as int),
        tame(s),
    ensures
        r == summed(order, start, s, v as int),
        r matches Some(t) ==> tame(t),
{
    if !is_small(v) {
        return None;
    }
    if order == 0 {
        return Some(s);
    }
    if s.count == 0 {
        return Some(Sum { count: 1, last: start.first, before: s.before });
    }
    if order == 1 {
        let y: i64 = v + s.last;
        return if is_small(y) {
            Some(Sum { count: 1, last: y, before: s.before })
        } else {
            None
        };
    }
    if s.count == 1 {
        return Some(Sum { count: 2, last: start.second, before: s.last });
    }
    let twice: i64 = 2 * s.last;
    let y: i64 = v + twice;
    if is_small(twice) && is_small(y) && is_small(y - s.before) {
        Some(Sum { count: 2, last: y - s.before, before: s.last })
    } else {
        None
    }
}

/// The sum after the values of a group, unless a number does not fit.
fn add_up_group(
    p: Packing,
    start: Start,
    f: &[u8],
    at: u64,
    least: u64,
    width: u8,
    len: u32,
    left: u64,
    from: Sum,
) -> (r: Option<Sum>)
    requires
        width == 0 ==> p.ref_bits <= 30,
        width <= 31,
        at + width * len <= 8 * f@.len(),
        f@.len() <= MAX_FILE_BYTES,
        least < 0x8000_0000,
        small(start.first as int),
        small(start.second as int),
        small(start.least as int),
        tame(from),
    ensures
        r == group_sum(
            p,
            start,
            f@,
            at as int,
            least as int,
            width as int,
            len as int,
            left as int,
            0,
            from,
        ),
        r matches Some(t) ==> tame(t),
{
    let bytes: usize = f.len();
    let mut s: Sum = from;
    let ghost goal = group_sum(
        p,
        start,
        f@,
        at as int,
        least as int,
        width as int,
        len as int,
        left as int,
        0,
        from,
    );
    let mut m: u32 = 0;
    while m < len && (width > 0 || (m as u64) < left)
        invariant
            m <= len,
            bytes == f@.len(),
            width == 0 ==> p.ref_bits <= 30,
            width <= 31,
            at + width * len <= 8 * f@.len(),
            f@.len() <= MAX_FILE_BYTES,
            least < 0x8000_0000,
            small(start.first as int),
            small(start.second as int),
            small(start.least as int),
            tame(s),
            goal == group_sum(
                p,
                start,
                f@,
                at as int,
                least as int,
                width as int,
                len as int,
                left as int,
                0,
                from,
            ),
            goal == group_sum(
                p,
                start,
                f@,
                at as int,
                least as int,
                width as int,
                len as int,
                left as int,
                m as int,
                s,
            ),
        decreases len - m,
    {
        proof {
            assert(m * width + width <= width * len && m * width >= 0) by (nonlinear_arith)
                requires
                    m + 1 <= len,
                    width >= 0,
                    m >= 0,
            ;
            assert(m * width <= 0xFFFF_FFFF * 31) by (nonlinear_arith)
                requires
                    0 <= m <= 0xFFFF_FFFF,
                    0 <= width <= 31,
            ;
        }
        let v: u64 = if width == 0 {
            least
        } else {
            read_bits(f, at + m as u64 * width as u64, width)
        };
        let gone: bool = stands_for_none(
            p.missing,
            v,
            if width == 0 {
                p.ref_bits
            } else {
                width
            },
        );
        if !gone {
            let whole: i64 = if width == 0 {
                v as i64
            } else {
                v as i64 + least as i64
            };
            let x: i64 = whole + start.least;
            if !is_small(whole) || !is_small(x) {
                return None;
            }
            if (m as u64) < left {
                match add_up(p.order, start, s, x) {
                    None => {
                        return None;
                    },
                    Some(t) => {
                        s = t;
                    },
                }
            }
        }
        m += 1;
    }
    Some(s)
}

/// So many bits in bytes.
fn bytes_for(groups: u32, n: u8) -> (r: u64)
    ensures
        r == octets_of(groups * n),
        r <= 0x20_0000_0000,
{
    assert(0 <= groups * n <= 0xFFFF_FFFF * 255) by (nonlinear_arith)
        requires
            0 <= groups <= 0xFFFF_FFFF,
            0 <= n <= 255,
    ;
    (groups as u64 * n as u64 + 7) / 8
}

/// Where the parts of packed data end.
#[derive(Clone, Copy)]
struct Ends {
    extra: u64,
    refs: u64,
    widths: u64,
    lens: u64,
}

/// Whether the parts of packed data end where their packing says.
spec fn ends_of(e: Ends, p: Packing, len: int) -> bool {
    &&& e.extra == p.extra()
    &&& e.refs == p.refs_end()
    &&& e.widths == p.widths_end()
    &&& e.lens == p.lens_end()
    &&& e.extra <= e.refs <= e.widths <= e.lens <= len
}

/// What a group gives: its bits, its values, and the sum after it, unless it cannot be
/// unpacked.
fn take_group(
    p: Packing,
    start: Start,
    f: &[u8],
    base: usize,
    len: usize,
    e: Ends,
    k: u32,
    done: u64,
    left: u64,
    s: Sum,
) -> (r: Option<(u64, u64, Sum)>)
    requires
        k < p.groups,
        p.fits(len as int),
        ends_of(e, p, len as int),
        base + len <= f@.len(),
        f@.len() <= MAX_FILE_BYTES,
        small(start.first as int),
        small(start.second as int),
        small(start.least as int),
        tame(s),
        done <= 8 * (len - p.lens_end()),
    ensures
        match r {
            None => group_step(
                p,
                start,
                f@,
                base as int,
                len as int,
                k as int,
                done as int,
                left as int,
                s,
            ) is None,
            Some((size, count, t)) => {
                &&& group_step(
                    p,
                    start,
                    f@,
                    base as int,
                    len as int,
                    k as int,
                    done as int,
                    left as int,
                    s,
                ) == Some(t)
                &&& size == p.size_of(f@, base as int, k as int)
                &&& count == p.len_of(f@, base as int, k as int)
                &&& done + size <= 8 * (len - p.lens_end())
                &&& tame(t)
            },
        },
{
    let bytes: usize = f.len();
    assert(base + len <= bytes);
    let least: u64 = read_packed(f, base + e.extra as usize, p.groups, p.ref_bits, k);
    let more: u64 = read_packed(f, base + e.refs as usize, p.groups, p.width_bits, k);
    let width: u64 = p.width_ref as u64 + more;
    let count: u64 = if k + 1 < p.groups {
        let steps: u64 = read_packed(f, base + e.widths as usize, p.groups, p.len_bits, k);
        assert(0 <= p.len_inc * steps <= 255 * 0x1_0000_0000) by (nonlinear_arith)
            requires
                0 <= p.len_inc <= 255,
                0 <= steps <= 0x1_0000_0000,
        ;
        p.len_ref as u64 + p.len_inc as u64 * steps
    } else {
        p.len_last as u64
    };
    assert(least == p.ref_of(f@, base as int, k as int));
    assert(width == p.width_of(f@, base as int, k as int));
    assert(count == p.len_of(f@, base as int, k as int));
    if least >= 0x8000_0000 || width > 31 || count > u32::MAX as u64 {
        return None;
    }
    if width == 0 && (p.ref_bits > 30 || (!stands_for_none(p.missing, least, p.ref_bits) && !is_small(
        least as i64 + start.least,
    ))) {
        return None;
    }
    assert(0 <= width * count <= 31 * 0xFFFF_FFFF) by (nonlinear_arith)
        requires
            0 <= width <= 31,
            0 <= count <= 0xFFFF_FFFF,
    ;
    let size: u64 = width * count;
    assert(size == p.size_of(f@, base as int, k as int));
    if size >= 0xFFFF_FFF0 || size > 8 * (len as u64 - e.lens) - done {
        return None;
    }
    let at: u64 = 8 * (base as u64 + e.lens) + done;
    match add_up_group(p, start, f, at, least, width as u8, count as u32, left, s) {
        None => None,
        Some(t) => Some((size, count, t)),
    }
}

/// Whether groups can be unpacked, as far as `wanted` values are. Data of `len` bytes begin
/// at byte `base`.
fn are_groups_sound(p: Packing, start: Start, f: &[u8], base: usize, len: usize, wanted: u32) -> (r:
    bool)
    requires
        p.order <= 2,
        p.octets <= 4,
        base + len <= f@.len(),
        f@.len() <= MAX_FILE_BYTES,
        small(start.first as int),
        small(start.second as int),
        small(start.least as int),
    ensures
        r == (p.fits(len as int) && groups_sound(
            p,
            start,
            f@,
            base as int,
            len as int,
            0,
            0,
            wanted as int,
            Sum { count: 0, last: 0, before: 0 },
        )),
{
    let extra: u64 = if p.order == 0 {
        0
    } else {
        assert(0 <= (p.order + 1) * p.octets <= 12) by (nonlinear_arith)
            requires
                0 <= p.order <= 2,
                0 <= p.octets <= 4,
        ;
        (p.order as u64 + 1) * p.octets as u64
    };
    let refs: u64 = extra + bytes_for(p.groups, p.ref_bits);
    let widths: u64 = refs + bytes_for(p.groups, p.width_bits);
    let lens: u64 = widths + bytes_for(p.groups, p.len_bits);
    proof {
        assert(p.groups * p.ref_bits <= 0xFFFF_FFFF * 255 && p.groups * p.width_bits <= 0xFFFF_FFFF * 255
            && p.groups * p.len_bits <= 0xFFFF_FFFF * 255) by (nonlinear_arith)
            requires
                0 <= p.groups <= 0xFFFF_FFFF,
                0 <= p.ref_bits <= 255,
                0 <= p.width_bits <= 255,
                0 <= p.len_bits <= 255,
        ;
    }
    if p.groups == 0 || p.groups as u64 * p.ref_bits as u64 >= 0xFFFF_FFF0 || p.groups as u64
        * p.width_bits as u64 >= 0xFFFF_FFF0 || p.groups as u64 * p.len_bits as u64 >= 0xFFFF_FFF0
        || p.ref_bits > 32 || p.width_bits > 32 || p.len_bits > 32 || lens > len as u64 {
        return false;
    }
    let e: Ends = Ends { extra, refs, widths, lens };
    let ghost goal = groups_sound(
        p,
        start,
        f@,
        base as int,
        len as int,
        0,
        0,
        wanted as int,
        Sum { count: 0, last: 0, before: 0 },
    );
    let mut s: Sum = Sum { count: 0, last: 0, before: 0 };
    let mut done: u64 = 0;
    let mut left: u64 = wanted as u64;
    let mut k: u32 = 0;
    while k < p.groups && left > 0
        invariant
            k <= p.groups,
            base + len <= f@.len(),
            f@.len() <= MAX_FILE_BYTES,
            p.fits(len as int),
            ends_of(e, p, len as int),
            small(start.first as int),
            small(start.second as int),
            small(start.least as int),
            tame(s),
            done <= 8 * (len - p.lens_end()),
            goal == groups_sound(
                p,
                start,
                f@,
                base as int,
                len as int,
                0,
                0,
                wanted as int,
                Sum { count: 0, last: 0, before: 0 },
            ),
            goal == groups_sound(
                p,
                start,
                f@,
                base as int,
                len as int,
                k as int,
                done as int,
                left as int,
                s,
            ),
        decreases p.groups - k,
    {
        match take_group(p, start, f, base, len, e, k, done, left, s) {
            None => {
                return false;
            },
            Some((size, count, t)) => {
                s = t;
                done = done + size;
                k += 1;
                if left <= count {
                    assert(groups_sound(
                        p,
                        start,
                        f@,
                        base as int,
                        len as int,
                        k as int,
                        done as int,
                        left - count,
                        s,
                    ));
                    return true;
                }
                left = left - count;
            },
        }
    }
    true
}

/// Whether data in groups can be unpacked, or it is found out that they are of a kind that
/// is not.
fn is_complex_sound(f: &[u8], representation: usize, data: usize, spatial: bool) -> (r: bool)
    requires
        representation + 47 <= f@.len(),
        spatial ==> representation + 49 <= f@.len(),
        section(f@, data as int, f@.len() as int, 7, 5),
        f@.len() <= MAX_FILE_BYTES,
    ensures
        r == complex_sound(f@, representation as int, data as int, spatial),
{
    let bytes: usize = f.len();
    assert(representation + 47 <= bytes);
    if f[representation + 20] != 0 || f[representation + 21] != 1 || f[representation + 22] > 2 {
        return true;
    }
    if spatial {
        let order: u8 = f[representation + 47];
        let octets: u8 = f[representation + 48];
        if (order != 1 && order != 2 && order != 255) || octets < 1 || octets > 4 {
            return true;
        }
        if order == 255 {
            return false;
        }
    }
    let p: Packing = read_packing(f, representation, spatial);
    let base: usize = data + 5;
    let len: usize = read_be32(f, data) as usize - 5;
    let wanted: u32 = read_be32(f, representation + 5);
    if p.order == 0 {
        return are_groups_sound(p, Start { first: 0, second: 0, least: 0 }, f, base, len, wanted);
    }
    let octets: usize = p.octets as usize;
    assert(0 <= (p.order + 1) * p.octets <= 12 && p.order * p.octets + p.octets == (p.order + 1)
        * p.octets && (p.order >= 1 ==> (p.order + 1) * p.octets >= 2 * p.octets)) by (nonlinear_arith)
        requires
            0 <= p.order <= 2,
            0 <= p.octets <= 4,
    ;
    if len < (p.order as usize + 1) * octets {
        return false;
    }
    let start: Start = Start {
        first: read_signed(f, base, p.octets),
        second: if p.order == 1 {
            0
        } else {
            read_signed(f, base + octets, p.octets)
        },
        least: read_signed(f, base + p.order as usize * octets, p.octets),
    };
    are_groups_sound(p, start, f, base, len, wanted)
}

/// Whether data in runs of equal values can be unpacked.
fn is_run_length_sound(f: &[u8], representation: usize, data: usize) -> (r: bool)
    requires
        representation + 17 <= f@.len(),
        section(f@, data as int, f@.len() as int, 7, 5),
        f@.len() <= MAX_FILE_BYTES,
    ensures
        r == run_length_sound(f@, representation as int, data as int),
{
    let bytes: usize = f.len();
    assert(representation + 17 <= bytes);
    let n: u8 = f[representation + 11];
    let least: u64 = read_be16(f, representation + 12) as u64 + 1;
    let len: u64 = read_be32(f, data) as u64 - 5;
    if n < 1 || n > 15 {
        return false;
    }
    let all: u64 = power_of_two(n);
    if least > all {
        return false;
    }
    let at: u64 = 8 * (data as u64 + 5);
    let count: u64 = 8 * len / n as u64;
    let ghost goal = runs_sound(f@, at as int, count as int, n as nat, least as int, 0, 1, 0);
    proof {
        assert(count * n <= 8 * len) by (nonlinear_arith)
            requires
                count == 8 * len / (n as int),
                n >= 1,
        ;
    }
    assert(goal == run_length_sound(f@, representation as int, data as int));
    let mut m: u64 = 0;
    let mut factor: u64 = 1;
    let mut out: u64 = 0;
    while m < count
        invariant
            m <= count,
            bytes == f@.len(),
            bytes <= MAX_FILE_BYTES,
            1 <= n <= 15,
            count * n <= 8 * len,
            len <= 0xFFFF_FFFF,
            at == 8 * (data + 5),
            data + 5 + len <= bytes,
            least <= all == two(n as nat),
            all <= 0x8000_0000,
            factor <= u32::MAX,
            out <= u32::MAX,
            goal == run_length_sound(f@, representation as int, data as int),
            goal == runs_sound(
                f@,
                at as int,
                count as int,
                n as nat,
                least as int,
                m as int,
                factor as int,
                out as int,
            ),
        decreases count - m,
    {
        proof {
            assert(m * n + n <= count * n && m * n >= 0) by (nonlinear_arith)
                requires
                    m + 1 <= count,
                    n >= 0,
                    m >= 0,
            ;
        }
        let v: u64 = read_bits(f, at + m * n as u64, n);
        if v < least {
            if out >= u32::MAX as u64 {
                return false;
            }
            factor = 1;
            out = out + 1;
        } else if out == 0 {
            return true;
        } else {
            assert(0 <= (v - least) * factor <= 0x8000_0000 * 0xFFFF_FFFF && 0 <= factor * (all - least)
                <= 0x8000_0000 * 0xFFFF_FFFF) by (nonlinear_arith)
                requires
                    0 <= v - least <= 0x8000_0000,
                    0 <= all - least <= 0x8000_0000,
                    0 <= factor <= 0xFFFF_FFFF,
            ;
            let run: u64 = (v - least) * factor;
            let grown: u64 = factor * (all - least);
            if out + run > u32::MAX as u64 || grown > u32::MAX as u64 {
                return false;
            }
            factor = grown;
            out = out + run;
        }
        m += 1;
    }
    true
}

/// Whether the values of a field can be unpacked, or it is found out that they are of a
/// kind that is not.
pub fn are_values_sound(f: &[u8], representation: usize, data: usize) -> (r: bool)
    requires
        section(f@, representation as int, f@.len() as int, 5, 11),
        section(f@, data as int, f@.len() as int, 7, 5),
        f@.len() <= MAX_FILE_BYTES,
    ensures
        r == values_sound(f@, representation as int, data as int),
{
    let bytes: usize = f.len();
    assert(representation + 11 <= bytes);
    let t: u16 = read_be16(f, representation + 9);
    let size: u32 = read_be32(f, representation);
    if !(t <= 4 || (40 <= t && t <= 42) || (50 <= t && t <= 51) || t == 53 || t == 61 || t == 200) {
        return false;
    }
    if t == 2 && size >= 47 {
        is_complex_sound(f, representation, data, false)
    } else if t == 3 && size >= 49 {
        is_complex_sound(f, representation, data, true)
    } else if t == 200 && size >= 17 {
        is_run_length_sound(f, representation, data)
    } else {
        true
    }
}

} // verus!
