//! Little-endian integers in byte sequences.
use vstd::prelude::*;

verus! {

/// The number that bytes stand for, least significant byte first.
pub open spec fn le_value(s: Seq<u8>) -> nat
    decreases s.len(),
{
    if s.len() == 0 {
        0
    } else {
        s[0] as nat + 256 * le_value(s.skip(1))
    }
}

/// The `n` least significant bytes of a number, least significant first.
pub open spec fn le_bytes(v: nat, n: nat) -> Seq<u8>
    decreases n,
{
    if n == 0 {
        Seq::<u8>::empty()
    } else {
        seq![(v % 256) as u8] + le_bytes(v / 256, (n - 1) as nat)
    }
}

/// 256 to the power of `n`.
pub open spec fn pow256(n: nat) -> nat
    decreases n,
{
    if n == 0 {
        1
    } else {
        256 * pow256((n - 1) as nat)
    }
}

/// The two's complement pattern of a 64-bit integer, as a number.
pub open spec fn unsigned_of(v: i64) -> nat {
    if v >= 0 {
        v as nat
    } else {
        (v + 0x1_0000_0000_0000_0000) as nat
    }
}

/// The 64-bit integer whose two's complement pattern is `v`.
pub open spec fn signed_of(v: u64) -> int {
    if v < 0x8000_0000_0000_0000 {
        v as int
    } else {
        v - 0x1_0000_0000_0000_0000
    }
}

/// The number that `n` bytes from place `at` on stand for.
pub open spec fn field(s: Seq<u8>, at: int, n: int) -> nat {
    le_value(s.subrange(at, at + n))
}

/// Small powers of 256.
pub proof fn lemma_pow256()
    ensures
        pow256(0) == 1,
        pow256(1) == 0x100,
        pow256(2) == 0x1_0000,
        pow256(4) == 0x1_0000_0000,
        pow256(8) == 0x1_0000_0000_0000_0000,
{
    reveal_with_fuel(pow256, 9);
}

/// Bytes stand for a number below the power of 256 of their length.
pub proof fn lemma_le_value_bound(s: Seq<u8>)
    ensures
        le_value(s) < pow256(s.len()),
    decreases s.len(),
{
    if s.len() > 0 {
        lemma_le_value_bound(s.skip(1));
    }
}

/// The bytes of a number are as many as asked for.
pub proof fn lemma_le_bytes_len(v: nat, n: nat)
    ensures
        le_bytes(v, n).len() == n,
    decreases n,
{
    if n > 0 {
        lemma_le_bytes_len(v / 256, (n - 1) as nat);
    }
}

/// The bytes of a number that fits stand for the number.
pub proof fn law_value_of_bytes(v: nat, n: nat)
    requires
        v < pow256(n),
    ensures
        le_value(le_bytes(v, n)) == v,
        le_bytes(v, n).len() == n,
    decreases n,
{
    if n > 0 {
        law_value_of_bytes(v / 256, (n - 1) as nat);
        let s = le_bytes(v, n);
        assert(s.skip(1) =~= le_bytes(v / 256, (n - 1) as nat));
    }
}

/// Bytes are the bytes of the number they stand for.
pub proof fn law_bytes_of_value(s: Seq<u8>)
    ensures
        le_bytes(le_value(s), s.len()) == s,
    decreases s.len(),
{
    if s.len() > 0 {
        law_bytes_of_value(s.skip(1));
        assert(s =~= seq![s[0]] + s.skip(1));
    }
}

/// Appends the `n` least significant bytes of `v`, least significant first.
pub fn push_le(out: &mut Vec<u8>, v: u64, n: usize)
    ensures
        final(out)@ == old(out)@ + le_bytes(v as nat, n as nat),
{
    let ghost before = out@;
    let mut rest: u64 = v;
    let mut k: usize = 0;
    assert(out@ + le_bytes(rest as nat, n as nat) =~= before + le_bytes(v as nat, n as nat));
    while k < n
        invariant
            k <= n,
            out@ + le_bytes(rest as nat, (n - k) as nat) == before + le_bytes(v as nat, n as nat),
        decreases n - k,
    {
        let ghost held = out@;
        out.push((rest % 256) as u8);
        proof {
            let tail = le_bytes((rest / 256) as nat, (n - k - 1) as nat);
            assert(held + le_bytes(rest as nat, (n - k) as nat) =~= held.push((rest % 256) as u8) + tail);
        }
        rest = rest / 256;
        k += 1;
    }
    assert(out@ =~= out@ + le_bytes(rest as nat, 0));
}

/// The number that `n` bytes from place `at` on stand for.
pub fn read_le(buf: &[u8], at: usize, n: usize) -> (v: u64)
    requires
        n <= 8,
        at + n <= buf@.len(),
    ensures
        v == le_value(buf@.subrange(at as int, at + n)),
        v < pow256(n as nat),
{
    let len: usize = buf.len();
    let mut v: u64 = 0;
    let mut k: usize = n;
    while k > 0
        invariant
            len == buf@.len(),
            n <= 8,
            k <= n,
            at + n <= buf@.len(),
            v == le_value(buf@.subrange(at + k, at + n)),
        decreases k,
    {
        k -= 1;
        let ghost s = buf@.subrange(at + k, at + n);
        proof {
            assert(s.skip(1) =~= buf@.subrange(at + k + 1, at + n));
            lemma_le_value_bound(s);
            lemma_pow256_grows(s.len(), 8);
            lemma_pow256();
        }
        v = v * 256 + buf[at + k] as u64;
    }
    proof {
        lemma_le_value_bound(buf@.subrange(at as int, at + n));
    }
    v
}

/// Higher powers of 256 are no smaller.
proof fn lemma_pow256_grows(m: nat, n: nat)
    requires
        m <= n,
    ensures
        pow256(m) <= pow256(n),
    decreases n,
{
    if m < n {
        lemma_pow256_grows(m, (n - 1) as nat);
    }
}

/// The 32-bit number that four bytes from place `at` on stand for.
pub fn read_u32_le(buf: &[u8], at: usize) -> (v: u32)
    requires
        at + 4 <= buf@.len(),
    ensures
        v == le_value(buf@.subrange(at as int, at + 4)),
{
    proof {
        lemma_pow256();
    }
    read_le(buf, at, 4) as u32
}

/// The 64-bit number that eight bytes from place `at` on stand for.
pub fn read_u64_le(buf: &[u8], at: usize) -> (v: u64)
    requires
        at + 8 <= buf@.len(),
    ensures
        v == le_value(buf@.subrange(at as int, at + 8)),
{
    read_le(buf, at, 8)
}

/// The signed number with a given two's complement pattern.
pub fn signed(v: u64) -> (i: i64)
    ensures
        i == signed_of(v),
        unsigned_of(i) == v,
{
    if v < 0x8000_0000_0000_0000 {
        v as i64
    } else {
        (v - 0x8000_0000_0000_0000) as i64 + i64::MIN
    }
}

/// The two's complement pattern of a signed number.
pub fn unsigned(i: i64) -> (v: u64)
    ensures
        v == unsigned_of(i),
        signed_of(v) == i,
{
    if i >= 0 {
        i as u64
    } else {
        (i - i64::MIN) as u64 + 0x8000_0000_0000_0000
    }
}

/// Whether `buf` holds `want` from place `at` on.
pub fn holds_at(buf: &[u8], at: usize, want: &[u8]) -> (r: bool)
    requires
        at + want@.len() <= buf@.len(),
    ensures
        r == (buf@.subrange(at as int, at + want@.len()) == want@),
{
    let len: usize = buf.len();
    let mut k: usize = 0;
    while k < want.len()
        invariant
            len == buf@.len(),
            at + want@.len() <= buf@.len(),
            k <= want@.len(),
            forall|m: int| 0 <= m < k ==> buf@[at + m] == want@[m],
        decreases want@.len() - k,
    {
        if buf[at + k] != want[k] {
            assert(buf@.subrange(at as int, at + want@.len())[k as int] != want@[k as int]);
            return false;
        }
        k += 1;
    }
    assert(buf@.subrange(at as int, at + want@.len()) =~= want@);
    true
}

/// Appends all bytes of `more`.
pub fn push_all(out: &mut Vec<u8>, more: &[u8])
    ensures
        final(out)@ == old(out)@ + more@,
{
    let ghost before = out@;
    let mut k: usize = 0;
    while k < more.len()
        invariant
            k <= more@.len(),
            out@ == before + more@.take(k as int),
        decreases more@.len() - k,
    {
        out.push(more[k]);
        proof {
            assert(more@.take(k + 1) =~= more@.take(k as int).push(more@[k as int]));
        }
        k += 1;
    }
    assert(more@.take(k as int) =~= more@);
}

/// The number in the two bytes from place `at` on, the least first.
pub open spec fn short_at(s: Seq<u8>, at: int) -> int {
    s[at] + 0x100 * s[at + 1]
}

/// The number in the four bytes from place `at` on, the least first.
pub open spec fn word_at(s: Seq<u8>, at: int) -> int {
    s[at] + 0x100 * s[at + 1] + 0x1_0000 * s[at + 2] + 0x100_0000 * s[at + 3]
}

/// The number in the eight bytes from place `at` on, the least first.
pub open spec fn long_at(s: Seq<u8>, at: int) -> int {
    word_at(s, at) + 0x1_0000_0000 * word_at(s, at + 4)
}

/// Fields of two, four and eight bytes hold numbers with the least byte first.
pub proof fn law_least_byte_comes_first(s: Seq<u8>, at: int)
    ensures
        0 <= at && at + 2 <= s.len() ==> field(s, at, 2) == short_at(s, at),
        0 <= at && at + 4 <= s.len() ==> field(s, at, 4) == word_at(s, at),
        0 <= at && at + 8 <= s.len() ==> field(s, at, 8) == long_at(s, at),
{
    if 0 <= at && at + 2 <= s.len() {
        let t = s.subrange(at, at + 2);
        let a = t.skip(1);
        assert(a.skip(1) =~= Seq::empty());
        assert(le_value(a.skip(1)) == 0);
        assert(le_value(a) == s[at + 1]);
    }
    if 0 <= at && at + 4 <= s.len() {
        lemma_four(s.subrange(at, at + 4));
    }
    if 0 <= at && at + 8 <= s.len() {
        let t = s.subrange(at, at + 8);
        let t1 = t.skip(1);
        let t2 = t1.skip(1);
        let t3 = t2.skip(1);
        let t4 = t3.skip(1);
        assert(t4 =~= s.subrange(at + 4, at + 8));
        lemma_four(t4);
        assert(le_value(t3) == t3[0] as nat + 256 * le_value(t4));
        assert(le_value(t2) == t2[0] as nat + 256 * le_value(t3));
        assert(le_value(t1) == t1[0] as nat + 256 * le_value(t2));
    }
}

/// The value of four bytes.
proof fn lemma_four(t: Seq<u8>)
    requires
        t.len() == 4,
    ensures
        le_value(t) == t[0] + 0x100 * t[1] + 0x1_0000 * t[2] + 0x100_0000 * t[3],
{
    let t1 = t.skip(1);
    let t2 = t1.skip(1);
    let t3 = t2.skip(1);
    assert(t3.skip(1) =~= Seq::empty());
    assert(le_value(t3.skip(1)) == 0);
    assert(le_value(t3) == t3[0]);
    assert(le_value(t2) == t2[0] as nat + 256 * le_value(t3));
    assert(le_value(t1) == t1[0] as nat + 256 * le_value(t2));
}

/// A number below zero is written as what it lacks of two to the 64th, and read so.
pub proof fn law_numbers_below_zero(i: i64, v: u64)
    ensures
        i >= 0 ==> unsigned_of(i) == i,
        i < 0 ==> unsigned_of(i) == 0x1_0000_0000_0000_0000 + i,
        v <= 0x7FFF_FFFF_FFFF_FFFF ==> signed_of(v) == v,
        v > 0x7FFF_FFFF_FFFF_FFFF ==> signed_of(v) == v - 0x1_0000_0000_0000_0000,
{
}

} // verus!
