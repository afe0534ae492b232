//! Index files: where each message of a forecast file begins.
use crate::bytes;
use crate::text;
use vstd::prelude::*;
use vstd::string::*;
use vstd::utf8::*;

verus! {

/// A run of bytes: its first byte, and the first byte behind it. The last message
/// of a file has no end.
pub type ByteRange = (u64, Option<u64>);

/// The first place of a byte, or the length where it does not occur.
pub open spec fn find(s: Seq<u8>, b: u8) -> nat
    decreases s.len(),
{
    if s.len() == 0 || s[0] == b {
        0
    } else {
        1 + find(s.skip(1), b)
    }
}

/// The parts of a sequence between the separators `b`.
pub open spec fn parts(s: Seq<u8>, b: u8) -> Seq<Seq<u8>>
    decreases s.len(),
{
    let k = find(s, b) as int;
    if k >= s.len() {
        seq![s]
    } else {
        seq![s.take(k)] + parts(s.skip(k + 1), b)
    }
}

/// A line without the carriage return it may end in.
pub open spec fn without_cr(s: Seq<u8>) -> Seq<u8> {
    if s.len() > 0 && s.last() == 13 {
        s.drop_last()
    } else {
        s
    }
}

/// The lines of a text. A line ends in a line feed, or a carriage return and a
/// line feed; the last may lack its end.
pub open spec fn lines(s: Seq<u8>) -> Seq<Seq<u8>>
    decreases s.len(),
{
    let k = find(s, 10) as int;
    if s.len() == 0 {
        Seq::empty()
    } else if k >= s.len() {
        seq![s]
    } else {
        seq![without_cr(s.take(k))] + lines(s.skip(k + 1))
    }
}

/// A line of an index: where its message begins, what it holds and on which level.
/// `None` for a line with fewer than five fields or without such a place.
pub open spec fn entry(line: Seq<u8>) -> Option<(u64, Seq<u8>, Seq<u8>)> {
    let fields = parts(line, 58);
    if fields.len() < 5 {
        None
    } else {
        match text::number_in(fields[1]) {
            Some(v) if v <= u64::MAX => Some((v as u64, fields[3], fields[4])),
            _ => None,
        }
    }
}

/// Whether a message holds a component of the wind at ten metres.
pub open spec fn holds_wind(e: (u64, Seq<u8>, Seq<u8>)) -> bool {
    (e.1 == encode_utf8("UGRD"@) || e.1 == encode_utf8("VGRD"@)) && e.2 == encode_utf8(
        "10 m above ground"@,
    )
}

/// For each line that is an entry, its place and whether it holds wind.
pub open spec fn entries(lines: Seq<Seq<u8>>) -> Seq<(u64, bool)>
    decreases lines.len(),
{
    if lines.len() == 0 {
        Seq::empty()
    } else {
        match entry(lines[0]) {
            Some(e) => seq![(e.0, holds_wind(e))] + entries(lines.skip(1)),
            None => entries(lines.skip(1)),
        }
    }
}

/// The runs of the messages that hold wind, each up to the next message.
pub open spec fn wind_runs(entries: Seq<(u64, bool)>) -> Seq<ByteRange>
    decreases entries.len(),
{
    if entries.len() == 0 {
        Seq::empty()
    } else {
        let rest = wind_runs(entries.skip(1));
        if entries[0].1 {
            let end = if entries.len() > 1 {
                Some(entries[1].0)
            } else {
                None
            };
            seq![(entries[0].0, end)] + rest
        } else {
            rest
        }
    }
}

/// The runs of the messages of an index that hold a component of the wind at ten
/// metres.
pub open spec fn wind_ranges(idx: Seq<char>) -> Seq<ByteRange> {
    wind_runs(entries(lines(encode_utf8(idx))))
}

/// A first place is one within or just behind the sequence.
proof fn lemma_find(s: Seq<u8>, b: u8)
    ensures
        find(s, b) <= s.len(),
        find(s, b) < s.len() ==> s[find(s, b) as int] == b,
        forall|k: int| 0 <= k < find(s, b) ==> s[k] != b,
    decreases s.len(),
{
    if s.len() > 0 && s[0] != b {
        lemma_find(s.skip(1), b);
        assert forall|k: int| 0 <= k < find(s, b) implies s[k] != b by {
            if k > 0 {
                assert(s[k] == s.skip(1)[k - 1]);
            }
        }
    }
}

/// A byte that occurs nowhere before place `k` occurs there first.
proof fn lemma_found(s: Seq<u8>, b: u8, k: int)
    requires
        0 <= k <= s.len(),
        forall|i: int| 0 <= i < k ==> s[i] != b,
        k < s.len() ==> s[k] == b,
    ensures
        find(s, b) == k,
{
    lemma_find(s, b);
}

/// The first place of a byte from `from` on and before `to`, or `to`.
fn find_from(buf: &[u8], from: usize, to: usize, b: u8) -> (k: usize)
    requires
        from <= to <= buf@.len(),
    ensures
        k == from + find(buf@.subrange(from as int, to as int), b),
        from <= k <= to,
{
    let len: usize = buf.len();
    let mut k: usize = from;
    while k < to && buf[k] != b
        invariant
            len == buf@.len(),
            from <= k <= to <= buf@.len(),
            forall|i: int| from <= i < k ==> buf@[i] != b,
        decreases to - k,
    {
        k += 1;
    }
    proof {
        lemma_found(buf@.subrange(from as int, to as int), b, k - from);
    }
    k
}

/// Whether the bytes from `from` on and before `to` are those of `want`.
fn is_text(buf: &[u8], from: usize, to: usize, want: &str) -> (r: bool)
    requires
        from <= to <= buf@.len(),
    ensures
        r == (buf@.subrange(from as int, to as int) == encode_utf8(want@)),
{
    let want: &[u8] = want.as_bytes();
    if to - from != want.len() {
        return false;
    }
    bytes::holds_at(buf, from, want)
}

/// Where a message begins and whether it holds wind, told by the line from `from`
/// on and before `to`.
fn read_entry(buf: &[u8], from: usize, to: usize) -> (e: Option<(u64, bool)>)
    requires
        from <= to <= buf@.len(),
    ensures
        match entry(buf@.subrange(from as int, to as int)) {
            Some(want) => e == Some((want.0, holds_wind(want))),
            None => e is None,
        },
{
    let len: usize = buf.len();
    let ghost line = buf@.subrange(from as int, to as int);
    let ghost fields = parts(line, 58);
    let e0: usize = find_from(buf, from, to, 58);
    if e0 == to {
        return None;
    }
    let ghost rest1 = buf@.subrange(e0 + 1, to as int);
    assert(line.skip(e0 - from + 1) =~= rest1);
    assert(fields =~= seq![line.take(e0 - from)] + parts(rest1, 58));
    let e1: usize = find_from(buf, e0 + 1, to, 58);
    if e1 == to {
        assert(parts(rest1, 58).len() == 1);
        return None;
    }
    let ghost rest2 = buf@.subrange(e1 + 1, to as int);
    assert(rest1.skip(e1 - e0) =~= rest2);
    assert(parts(rest1, 58) =~= seq![rest1.take(e1 - e0 - 1)] + parts(rest2, 58));
    let e2: usize = find_from(buf, e1 + 1, to, 58);
    if e2 == to {
        assert(parts(rest2, 58).len() == 1);
        return None;
    }
    let ghost rest3 = buf@.subrange(e2 + 1, to as int);
    assert(rest2.skip(e2 - e1) =~= rest3);
    assert(parts(rest2, 58) =~= seq![rest2.take(e2 - e1 - 1)] + parts(rest3, 58));
    let e3: usize = find_from(buf, e2 + 1, to, 58);
    if e3 == to {
        assert(parts(rest3, 58).len() == 1);
        return None;
    }
    let ghost rest4 = buf@.subrange(e3 + 1, to as int);
    assert(rest3.skip(e3 - e2) =~= rest4);
    assert(parts(rest3, 58) =~= seq![rest3.take(e3 - e2 - 1)] + parts(rest4, 58));
    let e4: usize = find_from(buf, e3 + 1, to, 58);
    proof {
        assert(parts(rest4, 58).len() >= 1);
        assert(parts(rest4, 58)[0] =~= buf@.subrange(e3 + 1, e4 as int));
        assert(fields.len() >= 5);
        assert(fields[1] =~= buf@.subrange(e0 + 1, e1 as int));
        assert(fields[3] =~= buf@.subrange(e2 + 1, e3 as int));
        assert(fields[4] =~= buf@.subrange(e3 + 1, e4 as int));
    }
    let place: &[u8] = vstd::slice::slice_subrange(buf, e0 + 1, e1);
    match text::parse_number(place, u64::MAX) {
        Err(_) => None,
        Ok(offset) => {
            let wind: bool = (is_text(buf, e2 + 1, e3, "UGRD") || is_text(buf, e2 + 1, e3, "VGRD"))
                && is_text(buf, e3 + 1, e4, "10 m above ground");
            Some((offset, wind))
        },
    }
}

/// Where the messages of an index begin and which of them hold wind.
fn read_entries(buf: &[u8]) -> (out: Vec<(u64, bool)>)
    ensures
        out@ == entries(lines(buf@)),
{
    let len: usize = buf.len();
    let mut out: Vec<(u64, bool)> = Vec::new();
    let mut at: usize = 0;
    assert(buf@.skip(0) =~= buf@);
    assert(out@ + entries(lines(buf@)) =~= entries(lines(buf@)));
    while at < len
        invariant
            len == buf@.len(),
            at <= len,
            out@ + entries(lines(buf@.skip(at as int))) == entries(lines(buf@)),
        decreases len - at,
    {
        let stop: usize = find_from(buf, at, len, 10);
        let ghost rest = buf@.skip(at as int);
        let ghost held = out@;
        assert(buf@.subrange(at as int, len as int) =~= rest);
        let end: usize = if stop < len && stop > at && buf[stop - 1] == 13 {
            stop - 1
        } else {
            stop
        };
        let ghost line = buf@.subrange(at as int, end as int);
        let e: Option<(u64, bool)> = read_entry(buf, at, end);
        let next: usize = if stop < len {
            stop + 1
        } else {
            len
        };
        proof {
            let after = lines(buf@.skip(next as int));
            if stop < len {
                assert(rest.skip(stop - at + 1) =~= buf@.skip(next as int));
                assert(without_cr(rest.take(stop - at)) =~= line);
            } else {
                assert(rest =~= line);
                assert(buf@.skip(next as int).len() == 0);
                assert(after =~= Seq::empty());
            }
            assert(lines(rest) =~= seq![line] + after);
            assert(lines(rest)[0] == line);
            assert(lines(rest).skip(1) =~= after);
        }
        match e {
            Some(found) => {
                out.push(found);
                assert(held + (seq![found] + entries(lines(buf@.skip(next as int)))) =~= out@ + entries(
                    lines(buf@.skip(next as int)),
                ));
            },
            None => {},
        }
        at = next;
    }
    proof {
        assert(lines(buf@.skip(at as int)) =~= Seq::empty());
        assert(out@ + Seq::<(u64, bool)>::empty() =~= out@);
    }
    out
}

/// The runs of the messages of an index that hold a component of the wind at ten
/// metres. A line such as `2:5482:d=2026030100:UGRD:10 m above ground:anl:` tells
/// a message's number, its first byte, its date, what it holds and on which level.
pub fn parse_idx_for_10m_wind(idx: &str) -> (ranges: Vec<ByteRange>)
    ensures
        ranges@ == wind_ranges(idx@),
{
    let list: Vec<(u64, bool)> = read_entries(idx.as_bytes());
    let mut ranges: Vec<ByteRange> = Vec::new();
    let mut k: usize = 0;
    assert(list@.skip(0) =~= list@);
    assert(ranges@ + wind_runs(list@) =~= wind_runs(list@));
    while k < list.len()
        invariant
            k <= list@.len(),
            ranges@ + wind_runs(list@.skip(k as int)) == wind_runs(list@),
        decreases list@.len() - k,
    {
        let ghost rest = list@.skip(k as int);
        let ghost held = ranges@;
        assert(rest.skip(1) =~= list@.skip(k + 1));
        if list[k].1 {
            let end: Option<u64> = if k + 1 < list.len() {
                Some(list[k + 1].0)
            } else {
                None
            };
            ranges.push((list[k].0, end));
            assert(held + (seq![(list@[k as int].0, end)] + wind_runs(rest.skip(1))) =~= ranges@
                + wind_runs(rest.skip(1)));
        }
        k += 1;
    }
    proof {
        assert(wind_runs(list@.skip(k as int)) =~= Seq::empty());
        assert(ranges@ + Seq::<ByteRange>::empty() =~= ranges@);
    }
    ranges
}

} // verus!
