//! The sections of a GRIB2 file.
//!
//! A file is a run of messages, each a head of 16 bytes, sections that begin with their
//! length and their number, and the mark `7777`. A message holds one or more fields: a
//! grid, a product, a representation, a bitmap and data, of which the grid may be shared.
//! All numbers are big-endian.
use crate::bytes;
use vstd::prelude::*;

verus! {

/// The mark that a message begins with: `GRIB`.
pub const HEAD_MARK: [u8; 4] = [0x47, 0x52, 0x49, 0x42];

/// The mark that a message ends with: `7777`.
pub const END_MARK: [u8; 4] = [0x37, 0x37, 0x37, 0x37];

/// The length of the head of a message.
pub const HEAD_BYTES: usize = 16;

/// The longest file whose bits can be counted.
pub const MAX_FILE_BYTES: u64 = 0x0FFF_FFFF_FFFF_FFFF;

/// The number of two bytes.
pub open spec fn be16(f: Seq<u8>, at: int) -> int {
    f[at] * 0x100 + f[at + 1]
}

/// The number of four bytes.
pub open spec fn be32(f: Seq<u8>, at: int) -> int {
    be16(f, at) * 0x1_0000 + be16(f, at + 2)
}

/// The number of eight bytes.
pub open spec fn be64(f: Seq<u8>, at: int) -> int {
    be32(f, at) * 0x1_0000_0000 + be32(f, at + 4)
}

/// The number of two bytes.
pub fn read_be16(f: &[u8], at: usize) -> (v: u16)
    requires
        at + 2 <= f@.len(),
    ensures
        v == be16(f@, at as int),
{
    f[at] as u16 * 0x100 + f[at + 1] as u16
}

/// The number of four bytes.
pub fn read_be32(f: &[u8], at: usize) -> (v: u32)
    requires
        at + 4 <= f@.len(),
    ensures
        v == be32(f@, at as int),
{
    let len: usize = f.len();
    assert(at + 4 <= len);
    read_be16(f, at) as u32 * 0x1_0000 + read_be16(f, at + 2) as u32
}

/// The number of eight bytes.
pub fn read_be64(f: &[u8], at: usize) -> (v: u64)
    requires
        at + 8 <= f@.len(),
    ensures
        v == be64(f@, at as int),
{
    let len: usize = f.len();
    assert(at + 8 <= len);
    read_be32(f, at) as u64 * 0x1_0000_0000 + read_be32(f, at + 4) as u64
}

/// Where the sections of a field begin.
#[derive(Clone, Copy, Debug, PartialEq, Eq, Structural)]
pub struct Place {
    pub grid: usize,
    pub product: usize,
    pub representation: usize,
    pub bitmap: usize,
    pub data: usize,
}

/// Whether a section of some number and at least some length stands at `at` and ends
/// before `end`.
pub open spec fn section(f: Seq<u8>, at: int, end: int, num: u8, least: int) -> bool {
    &&& at + 5 <= end
    &&& f[at + 4] == num
    &&& least <= be32(f, at)
    &&& at + be32(f, at) <= end
}

/// Where the section after the one at `at` begins.
pub open spec fn after(f: Seq<u8>, at: int) -> int {
    at + be32(f, at)
}

/// The field that stands at `at`, and where it ends. `grid` is the grid of the field
/// before, where there is one.
pub open spec fn field_at(f: Seq<u8>, at: int, end: int, grid: Option<usize>) -> Option<(Place, int)> {
    let has_local = section(f, at, end, 2, 5);
    let a = if has_local {
        after(f, at)
    } else {
        at
    };
    let has_grid = section(f, a, end, 3, 14);
    let b = if has_grid {
        after(f, a)
    } else {
        a
    };
    let g = if has_grid {
        Some(a as usize)
    } else if has_local {
        None
    } else {
        grid
    };
    if g is None || !section(f, b, end, 4, 9) || !section(f, after(f, b), end, 5, 11) || !section(
        f,
        after(f, after(f, b)),
        end,
        6,
        6,
    ) || !section(f, after(f, after(f, after(f, b))), end, 7, 5) {
        None
    } else {
        let c = after(f, b);
        let d = after(f, c);
        let e = after(f, d);
        Some(
            (
                Place {
                    grid: g->Some_0,
                    product: b as usize,
                    representation: c as usize,
                    bitmap: d as usize,
                    data: e as usize,
                },
                after(f, e),
            ),
        )
    }
}

/// The fields from `at` to the end of a message, where they are whole.
pub open spec fn fields(f: Seq<u8>, at: int, end: int, grid: Option<usize>) -> Option<Seq<Place>>
    decreases end - at,
{
    match field_at(f, at, end, grid) {
        None => None,
        Some((p, next)) => if next == end {
            Some(seq![p])
        } else if at < next < end {
            match fields(f, next, end, Some(p.grid)) {
                None => None,
                Some(rest) => Some(seq![p] + rest),
            }
        } else {
            None
        },
    }
}

/// Whether a message that begins at `at` is whole but for its fields.
pub open spec fn enclosed(f: Seq<u8>, at: int) -> bool {
    let end = at + be64(f, at + 8) - 4;
    &&& at + 16 <= f.len()
    &&& f[at + 7] == 2
    &&& 16 <= be64(f, at + 8) <= f.len() - at
    &&& f.subrange(end, end + 4) == END_MARK@
    &&& section(f, at + 16, end, 1, 21)
}

/// The fields of the message that begins at `at`, where it is whole.
pub open spec fn message(f: Seq<u8>, at: int) -> Option<Seq<Place>> {
    if enclosed(f, at) {
        fields(f, after(f, at + 16), at + be64(f, at + 8) - 4, None)
    } else {
        None
    }
}

/// Where the next message begins, from `at` on.
pub open spec fn next_head(f: Seq<u8>, at: int) -> Option<int>
    decreases f.len() - at,
{
    if at + 16 > f.len() {
        None
    } else if f.subrange(at, at + 4) == HEAD_MARK@ {
        Some(at)
    } else {
        next_head(f, at + 1)
    }
}

/// The fields of all messages from `at` on, where all are whole.
pub open spec fn messages(f: Seq<u8>, at: int) -> Option<Seq<Place>>
    decreases f.len() - at,
{
    match next_head(f, at) {
        None => Some(Seq::empty()),
        Some(p) => if p < at || be64(f, p + 8) <= 0 {
            None
        } else {
            match message(f, p) {
                None => None,
                Some(here) => match messages(f, p + be64(f, p + 8)) {
                    None => None,
                    Some(rest) => Some(here + rest),
                },
            }
        },
    }
}

/// How many bytes of a product, after its length and number, the lead time and the
/// surfaces of its template take.
pub open spec fn product_reach(template: int) -> int {
    if 0 <= template <= 15 || template == 51 || 60 <= template <= 61 || 86 <= template <= 87 || template
        == 91 || 1100 <= template <= 1101 {
        29
    } else if 32 <= template <= 34 || 1000 <= template <= 1099 {
        17
    } else if 40 <= template <= 43 {
        31
    } else if template == 44 {
        40
    } else if 45 <= template <= 47 || template == 85 {
        42
    } else if 48 <= template <= 49 {
        53
    } else if 55 <= template <= 56 || template == 59 || 62 <= template <= 63 || template == 88 {
        35
    } else if 70 <= template <= 73 {
        34
    } else if 76 <= template <= 79 {
        32
    } else if 80 <= template <= 81 {
        54
    } else if 82 <= template <= 84 {
        43
    } else {
        0
    }
}

/// Whether a product holds all that its template says.
pub open spec fn product_whole(f: Seq<u8>, at: int) -> bool {
    product_reach(be16(f, at + 7)) <= be32(f, at) - 5
}

/// Whether a file is made of whole messages.
pub open spec fn framed(f: Seq<u8>) -> bool {
    f.len() <= MAX_FILE_BYTES && messages(f, 0) is Some
}

/// The fields of a file that is made of whole messages.
pub open spec fn fields_of(f: Seq<u8>) -> Seq<Place> {
    messages(f, 0)->Some_0
}

/// Whether a section of some number and at least some length stands at `at` and ends
/// before `end`.
fn is_section(f: &[u8], at: usize, end: usize, num: u8, least: u32) -> (r: bool)
    requires
        at <= end <= f@.len(),
    ensures
        r == section(f@, at as int, end as int, num, least as int),
{
    if end - at < 5 {
        return false;
    }
    let size: u32 = read_be32(f, at);
    f[at + 4] == num && least <= size && size as u64 <= (end - at) as u64
}

/// Where the section after the one at `at` begins.
fn section_end(f: &[u8], at: usize, end: usize) -> (next: usize)
    requires
        at + 5 <= end <= f@.len(),
        at + be32(f@, at as int) <= end,
    ensures
        next == after(f@, at as int),
        next <= end,
{
    at + read_be32(f, at) as usize
}

/// Whether the sections of a field stand within the file and have their least lengths.
pub open spec fn inside(f: Seq<u8>, p: Place) -> bool {
    &&& section(f, p.grid as int, f.len() as int, 3, 14)
    &&& section(f, p.product as int, f.len() as int, 4, 9)
    &&& section(f, p.representation as int, f.len() as int, 5, 11)
    &&& section(f, p.bitmap as int, f.len() as int, 6, 6)
    &&& section(f, p.data as int, f.len() as int, 7, 5)
}

/// The field that stands at `at`, and where it ends.
fn read_field(f: &[u8], at: usize, end: usize, grid: Option<usize>) -> (r: Option<(Place, usize)>)
    requires
        at <= end <= f@.len(),
        grid matches Some(g) ==> section(f@, g as int, f@.len() as int, 3, 14),
    ensures
        match r {
            Some((p, next)) => field_at(f@, at as int, end as int, grid) == Some((p, next as int)) && at
                < next <= end && inside(f@, p),
            None => field_at(f@, at as int, end as int, grid) is None,
        },
{
    let has_local: bool = is_section(f, at, end, 2, 5);
    let a: usize = if has_local {
        section_end(f, at, end)
    } else {
        at
    };
    let has_grid: bool = is_section(f, a, end, 3, 14);
    let b: usize = if has_grid {
        section_end(f, a, end)
    } else {
        a
    };
    let g: Option<usize> = if has_grid {
        Some(a)
    } else if has_local {
        None
    } else {
        grid
    };
    let g: usize = match g {
        None => {
            return None;
        },
        Some(g) => g,
    };
    if !is_section(f, b, end, 4, 9) {
        return None;
    }
    let c: usize = section_end(f, b, end);
    if !is_section(f, c, end, 5, 11) {
        return None;
    }
    let d: usize = section_end(f, c, end);
    if !is_section(f, d, end, 6, 6) {
        return None;
    }
    let e: usize = section_end(f, d, end);
    if !is_section(f, e, end, 7, 5) {
        return None;
    }
    let next: usize = section_end(f, e, end);
    Some((Place { grid: g, product: b, representation: c, bitmap: d, data: e }, next))
}

/// Whether all fields stand within the file.
pub open spec fn all_inside(f: Seq<u8>, places: Seq<Place>) -> bool {
    forall|k: int| 0 <= k < places.len() ==> inside(f, #[trigger] places[k])
}

/// Appends the fields from `at` to the end of a message, unless one is not whole.
fn read_fields(f: &[u8], at: usize, end: usize, out: &mut Vec<Place>) -> (whole: bool)
    requires
        at <= end <= f@.len(),
        all_inside(f@, old(out)@),
    ensures
        all_inside(f@, final(out)@),
        whole <==> fields(f@, at as int, end as int, None) is Some,
        whole ==> final(out)@ == old(out)@ + fields(f@, at as int, end as int, None)->Some_0,
{
    let ghost goal = fields(f@, at as int, end as int, None);
    let ghost before = out@;
    let mut here: usize = at;
    let mut grid: Option<usize> = None;
    assert(out@ =~= before + Seq::<Place>::empty());
    loop
        invariant
            at <= here <= end <= f@.len(),
            all_inside(f@, out@),
            grid matches Some(g) ==> section(f@, g as int, f@.len() as int, 3, 14),
            before == old(out)@,
            goal == fields(f@, at as int, end as int, None),
            before.len() <= out@.len(),
            out@.take(before.len() as int) == before,
            match fields(f@, here as int, end as int, grid) {
                None => goal is None,
                Some(rest) => goal == Some(out@.skip(before.len() as int) + rest),
            },
        decreases end - here,
    {
        match read_field(f, here, end, grid) {
            None => {
                return false;
            },
            Some((p, next)) => {
                let ghost was = out@;
                out.push(p);
                proof {
                    assert(out@.take(before.len() as int) =~= before);
                    assert(out@.skip(before.len() as int) =~= was.skip(before.len() as int).push(p));
                    match fields(f@, here as int, end as int, grid) {
                        None => {},
                        Some(rest) => {
                            if next == end {
                                assert(rest =~= seq![p]);
                                assert(out@.skip(before.len() as int) =~= was.skip(before.len() as int)
                                    + rest);
                                assert(out@ =~= before + out@.skip(before.len() as int));
                            } else {
                                let more = fields(f@, next as int, end as int, Some(p.grid))->Some_0;
                                assert(was.skip(before.len() as int) + (seq![p] + more)
                                    =~= out@.skip(before.len() as int) + more);
                            }
                        },
                    }
                }
                if next == end {
                    return true;
                }
                here = next;
                grid = Some(p.grid);
            },
        }
    }
}

/// Where the next message begins, from `at` on.
fn find_head(f: &[u8], at: usize) -> (r: Option<usize>)
    requires
        at <= f@.len(),
    ensures
        match r {
            Some(p) => next_head(f@, at as int) == Some(p as int) && at <= p && p + 16 <= f@.len(),
            None => next_head(f@, at as int) is None,
        },
{
    let len: usize = f.len();
    let mark: [u8; 4] = HEAD_MARK;
    let mut p: usize = at;
    while HEAD_BYTES <= len - p
        invariant
            len == f@.len(),
            at <= p <= len,
            mark@ == HEAD_MARK@,
            next_head(f@, at as int) == next_head(f@, p as int),
        decreases len - p,
    {
        if bytes::holds_at(f, p, mark.as_slice()) {
            return Some(p);
        }
        p += 1;
    }
    None
}

/// Whether a product holds all that its template says.
pub fn is_product_whole(f: &[u8], at: usize) -> (r: bool)
    requires
        section(f@, at as int, f@.len() as int, 4, 9),
    ensures
        r == product_whole(f@, at as int),
{
    let len: usize = f.len();
    assert(at + 9 <= len);
    let t: u16 = read_be16(f, at + 7);
    let reach: u32 = if t <= 15 || t == 51 || (60 <= t && t <= 61) || (86 <= t && t <= 87) || t == 91
        || (1100 <= t && t <= 1101) {
        29
    } else if (32 <= t && t <= 34) || (1000 <= t && t <= 1099) {
        17
    } else if 40 <= t && t <= 43 {
        31
    } else if t == 44 {
        40
    } else if (45 <= t && t <= 47) || t == 85 {
        42
    } else if 48 <= t && t <= 49 {
        53
    } else if (55 <= t && t <= 56) || t == 59 || (62 <= t && t <= 63) || t == 88 {
        35
    } else if 70 <= t && t <= 73 {
        34
    } else if 76 <= t && t <= 79 {
        32
    } else if 80 <= t && t <= 81 {
        54
    } else if 82 <= t && t <= 84 {
        43
    } else {
        0
    };
    reach <= read_be32(f, at) - 5
}

/// Appends the fields of the message that begins at `p`, and tells where it ends, unless
/// it is not whole.
fn read_message(f: &[u8], p: usize, out: &mut Vec<Place>) -> (r: Option<usize>)
    requires
        p + 16 <= f@.len(),
        f@.len() <= MAX_FILE_BYTES,
        all_inside(f@, old(out)@),
    ensures
        all_inside(f@, final(out)@),
        r is Some <==> message(f@, p as int) is Some,
        r matches Some(next) ==> {
            &&& next == p + be64(f@, p as int + 8)
            &&& p < next <= f@.len()
            &&& final(out)@ == old(out)@ + message(f@, p as int)->Some_0
        },
{
    let len: usize = f.len();
    let mark: [u8; 4] = END_MARK;
    if f[p + 7] != 2 {
        return None;
    }
    let total: u64 = read_be64(f, p + 8);
    if total < 16 || total > (len - p) as u64 {
        return None;
    }
    let next: usize = p + total as usize;
    let end: usize = next - 4;
    if !bytes::holds_at(f, end, mark.as_slice()) {
        return None;
    }
    if end - p < HEAD_BYTES {
        return None;
    }
    if !is_section(f, p + HEAD_BYTES, end, 1, 21) {
        return None;
    }
    let first: usize = section_end(f, p + HEAD_BYTES, end);
    if read_fields(f, first, end, out) {
        Some(next)
    } else {
        None
    }
}

/// The fields of a file, unless it is not made of whole messages.
pub fn read_places(f: &[u8]) -> (r: Option<Vec<Place>>)
    ensures
        r is Some <==> framed(f@),
        r matches Some(places) ==> places@ == fields_of(f@) && all_inside(f@, places@),
{
    let len: usize = f.len();
    if len as u64 > MAX_FILE_BYTES {
        return None;
    }
    let ghost goal = messages(f@, 0);
    let mut out: Vec<Place> = Vec::new();
    let mut at: usize = 0;
    let mut more: bool = true;
    assert(messages(f@, 0) matches Some(rest) ==> Seq::<Place>::empty() + rest =~= rest);
    while more
        invariant
            len == f@.len(),
            len <= MAX_FILE_BYTES,
            goal == messages(f@, 0),
            at <= len,
            all_inside(f@, out@),
            more ==> match messages(f@, at as int) {
                None => goal is None,
                Some(rest) => goal == Some(out@ + rest),
            },
            !more ==> goal == Some(out@),
        decreases (if more {
            1 + len - at
        } else {
            0
        }),
    {
        match find_head(f, at) {
            None => {
                assert(out@ + Seq::<Place>::empty() =~= out@);
                more = false;
            },
            Some(p) => {
                let ghost was = out@;
                match read_message(f, p, &mut out) {
                    None => {
                        return None;
                    },
                    Some(next) => {
                        proof {
                            let here = message(f@, p as int)->Some_0;
                            if messages(f@, next as int) is Some {
                                let rest = messages(f@, next as int)->Some_0;
                                assert(was + (here + rest) =~= out@ + rest);
                            }
                        }
                        at = next;
                    },
                }
            },
        }
    }
    Some(out)
}

} // verus!
