//! What holds of files, messages and sections that can be read.
use crate::grib2::packing;
use crate::grib2::sections;
use crate::grib2::sections::Place;
use vstd::prelude::*;

verus! {

/// Numbers of a file stand with their greatest byte first.
pub proof fn law_greatest_byte_comes_first(f: Seq<u8>, at: int)
    ensures
        sections::be16(f, at) == 0x100 * f[at] + f[at + 1],
        sections::be32(f, at) == 0x100_0000 * f[at] + 0x1_0000 * f[at + 1] + 0x100 * f[at + 2] + f[at
            + 3],
        sections::be64(f, at) == 0x1_0000_0000 * sections::be32(f, at) + sections::be32(f, at + 4),
{
}

/// The eight bits of a byte are that byte, and a bit more doubles what stands before it.
pub proof fn law_bits_of_bytes(f: Seq<u8>, k: int, p: int, n: nat)
    requires
        0 <= k < f.len(),
    ensures
        packing::bits(f, 8 * k, 8) == f[k],
        packing::bits(f, p, n + 1) == 2 * packing::bits(f, p, n) + packing::bits(f, p + n, 1),
        packing::bits(f, p, 0) == 0,
{
    reveal_with_fuel(packing::bits, 9);
    let b = f[k] as int;
    assert((8 * k) / 8 == k && (8 * k) % 8 == 0);
    assert((8 * k + 1) / 8 == k && (8 * k + 1) % 8 == 1);
    assert((8 * k + 2) / 8 == k && (8 * k + 2) % 8 == 2);
    assert((8 * k + 3) / 8 == k && (8 * k + 3) % 8 == 3);
    assert((8 * k + 4) / 8 == k && (8 * k + 4) % 8 == 4);
    assert((8 * k + 5) / 8 == k && (8 * k + 5) % 8 == 5);
    assert((8 * k + 6) / 8 == k && (8 * k + 6) % 8 == 6);
    assert((8 * k + 7) / 8 == k && (8 * k + 7) % 8 == 7);
    lemma_byte(b);
}

/// A byte is what its bits make up.
proof fn lemma_byte(b: int)
    requires
        0 <= b < 256,
    ensures
        128 * (b / 128 % 2) + 64 * (b / 64 % 2) + 32 * (b / 32 % 2) + 16 * (b / 16 % 2) + 8 * (b / 8 % 2)
            + 4 * (b / 4 % 2) + 2 * (b / 2 % 2) + b / 1 % 2 == b,
{
    let b1 = b / 2;
    let b2 = b1 / 2;
    let b3 = b2 / 2;
    let b4 = b3 / 2;
    let b5 = b4 / 2;
    let b6 = b5 / 2;
    let b7 = b6 / 2;
    vstd::arithmetic::div_mod::lemma_div_denominator(b, 2, 2);
    vstd::arithmetic::div_mod::lemma_div_denominator(b, 4, 2);
    vstd::arithmetic::div_mod::lemma_div_denominator(b, 8, 2);
    vstd::arithmetic::div_mod::lemma_div_denominator(b, 16, 2);
    vstd::arithmetic::div_mod::lemma_div_denominator(b, 32, 2);
    vstd::arithmetic::div_mod::lemma_div_denominator(b, 64, 2);
    lemma_halves(b, b1, b2, b3, b4, b5, b6, b7);
}

/// A number below 256 halved seven times.
proof fn lemma_halves(b: int, b1: int, b2: int, b3: int, b4: int, b5: int, b6: int, b7: int)
    requires
        0 <= b < 256,
        b1 == b / 2,
        b2 == b1 / 2,
        b3 == b2 / 2,
        b4 == b3 / 2,
        b5 == b4 / 2,
        b6 == b5 / 2,
        b7 == b6 / 2,
    ensures
        128 * (b7 % 2) + 64 * (b6 % 2) + 32 * (b5 % 2) + 16 * (b4 % 2) + 8 * (b3 % 2) + 4 * (b2 % 2) + 2 * (
        b1 % 2) + b % 2 == b,
{
}

/// Values that are not packed in groups or in runs can always be read.
pub proof fn law_plain_values_can_be_read(f: Seq<u8>, representation: int, data: int)
    requires
        f[representation + 9] == 0,
        f[representation + 10] == 0 || f[representation + 10] == 4 || f[representation + 10] == 40
            || f[representation + 10] == 41 || f[representation + 10] == 42,
    ensures
        packing::values_sound(f, representation, data),
{
}

/// A grid of longitudes and latitudes with columns and rows, no more than 32 bits count, and with
/// latitudes in millionths of a degree between the poles, can be read.
pub proof fn law_plain_grids_can_be_read(f: Seq<u8>, at: int)
    requires
        f[at + 12] == 0,
        f[at + 13] == 0,
        1 <= sections::be32(f, at + 30),
        1 <= sections::be32(f, at + 34),
        sections::be32(f, at + 30) * sections::be32(f, at + 34) <= u32::MAX,
        sections::be32(f, at + 46) <= 90_000_000 || 0x8000_0000 <= sections::be32(f, at + 46)
            <= 0x8000_0000 + 90_000_000,
        sections::be32(f, at + 55) <= 90_000_000 || 0x8000_0000 <= sections::be32(f, at + 55)
            <= 0x8000_0000 + 90_000_000,
    ensures
        packing::grid_sound(f, at),
{
}

/// Whether a message may begin at a place: `GRIB` stands there, and there are bytes for its head.
pub open spec fn begins_message(f: Seq<u8>, p: int) -> bool {
    p + 16 <= f.len() && f[p] == 0x47 && f[p + 1] == 0x52 && f[p + 2] == 0x49 && f[p + 3] == 0x42
}

/// Messages are looked for from a place on: the next is the first place where one may begin.
pub proof fn law_next_message_is_the_first(f: Seq<u8>, at: int)
    requires
        at >= 0,
    ensures
        match sections::next_head(f, at) {
            Some(p) => at <= p && begins_message(f, p) && forall|q: int|
                at <= q < p ==> !begins_message(f, q),
            None => forall|q: int| at <= q ==> !begins_message(f, q),
        },
    decreases f.len() - at,
{
    if at + 16 <= f.len() {
        let s = f.subrange(at, at + 4);
        assert(s[0] == f[at] && s[1] == f[at + 1] && s[2] == f[at + 2] && s[3] == f[at + 3]);
        if s != sections::HEAD_MARK@ {
            law_next_message_is_the_first(f, at + 1);
            if begins_message(f, at) {
                assert(s =~= sections::HEAD_MARK@);
            }
        }
    }
}

/// A file in which no message begins can be read, and has no fields.
pub proof fn law_file_without_messages(f: Seq<u8>)
    requires
        f.len() <= 0x0FFF_FFFF_FFFF_FFFF,
        forall|q: int| 0 <= q ==> !begins_message(f, q),
    ensures
        sections::framed(f),
        sections::fields_of(f).len() == 0,
{
    law_next_message_is_the_first(f, 0);
}

/// A message is of the second edition, is as long as it tells, ends in `7777`, and has its first
/// section right behind its head.
pub proof fn law_messages_are_enclosed(f: Seq<u8>, p: int)
    requires
        p >= 0,
        sections::message(f, p) is Some,
    ensures
        ({
            let n = sections::be64(f, p + 8);
            &&& f[p + 7] == 2
            &&& 16 <= n && p + n <= f.len()
            &&& f[p + n - 4] == 0x37 && f[p + n - 3] == 0x37 && f[p + n - 2] == 0x37 && f[p + n - 1]
                == 0x37
            &&& f[p + 20] == 1
            &&& sections::be32(f, p + 16) >= 21
        }),
{
    let end = p + sections::be64(f, p + 8) - 4;
    let s = f.subrange(end, end + 4);
    assert(s[0] == f[end] && s[1] == f[end + 1] && s[2] == f[end + 2] && s[3] == f[end + 3]);
}

/// The fields of a file are those of its messages, one message after another.
pub proof fn law_messages_follow_one_another(f: Seq<u8>, at: int, p: int)
    requires
        at >= 0,
        sections::next_head(f, at) == Some(p),
        sections::messages(f, at) is Some,
    ensures
        sections::message(f, p) is Some,
        sections::messages(f, p + sections::be64(f, p + 8)) is Some,
        sections::messages(f, at)->Some_0 == sections::message(f, p)->Some_0 + sections::messages(
            f,
            p + sections::be64(f, p + 8),
        )->Some_0,
{
}

/// The sections of a field have the numbers 4 to 7 and stand one behind another; the grid that
/// holds for it has the number 3, and stands before them or was told before.
pub proof fn law_sections_of_a_field(f: Seq<u8>, at: int, end: int, grid: Option<usize>, p: Place, next: int)
    requires
        0 <= at <= end <= f.len() <= usize::MAX,
        sections::field_at(f, at, end, grid) == Some((p, next)),
    ensures
        f[p.product + 4] == 4,
        f[p.representation + 4] == 5,
        f[p.bitmap + 4] == 6,
        f[p.data + 4] == 7,
        p.representation == p.product + sections::be32(f, p.product as int),
        p.bitmap == p.representation + sections::be32(f, p.representation as int),
        p.data == p.bitmap + sections::be32(f, p.bitmap as int),
        next == p.data + sections::be32(f, p.data as int),
        grid == Some(p.grid) || f[p.grid + 4] == 3,
        f[at + 4] == 3 && sections::section(f, at, end, 3, 14) ==> p.grid == at && p.product == at
            + sections::be32(f, at),
        f[at + 4] == 4 ==> p.product == at && grid == Some(p.grid),
{
}

/// How many bytes a product takes is told by its template, and no template takes more than 54.
pub proof fn law_reach_of_products(t: int)
    ensures
        sections::product_reach(t) == 29 <==> 0 <= t < 16 || t == 51 || t == 60 || t == 61 || t == 86
            || t == 87 || t == 91 || t == 1100 || t == 1101,
        sections::product_reach(t) == 17 <==> 32 <= t < 35 || 1000 <= t < 1100,
        sections::product_reach(t) == 31 <==> 40 <= t < 44,
        sections::product_reach(t) == 32 <==> 76 <= t < 80,
        sections::product_reach(t) == 34 <==> 70 <= t < 74,
        sections::product_reach(t) == 35 <==> t == 55 || t == 56 || t == 59 || t == 62 || t == 63 || t
            == 88,
        sections::product_reach(t) == 40 <==> t == 44,
        sections::product_reach(t) == 42 <==> 45 <= t < 48 || t == 85,
        sections::product_reach(t) == 43 <==> 82 <= t < 85,
        sections::product_reach(t) == 53 <==> t == 48 || t == 49,
        sections::product_reach(t) == 54 <==> t == 80 || t == 81,
        sections::product_reach(t) <= 54,
{
}

/// Thirteen templates of packed values are known, and no other.
pub proof fn law_known_templates(t: int)
    ensures
        packing::known_template(t) <==> t == 0 || t == 1 || t == 2 || t == 3 || t == 4 || t == 40 || t
            == 41 || t == 42 || t == 50 || t == 51 || t == 53 || t == 61 || t == 200,
{
}

} // verus!
