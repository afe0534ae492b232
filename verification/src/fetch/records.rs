//! What holds of the runs that an index gives, told by the lines of its text.
use crate::fetch::index;
use crate::fetch::index::ByteRange;
use crate::text;
use vstd::prelude::*;
use vstd::utf8::*;

verus! {

/// Whether none of the bytes from `from` on and before `to` is `b`.
pub open spec fn free_of(s: Seq<u8>, from: int, to: int, b: u8) -> bool {
    forall|k: int| from <= k < to ==> s[k] != b
}

/// Whether a text has a line from `from` on and before `to`: it begins the text or follows a
/// line feed, and is followed by a line feed, by a carriage return and a line feed, or
/// by the end of the text.
pub open spec fn is_line(s: Seq<u8>, from: int, to: int) -> bool {
    &&& 0 <= from < s.len()
    &&& from <= to <= s.len()
    &&& from == 0 || s[from - 1] == 10
    &&& free_of(s, from, to, 10)
    &&& {
        ||| to == s.len()
        ||| to < s.len() && s[to] == 10 && (to == from || s[to - 1] != 13)
        ||| to + 1 < s.len() && s[to] == 13 && s[to + 1] == 10
    }
}

/// Whether the first four colons of a line stand at the places `c`, and its fifth field ends
/// at place `end`.
pub open spec fn has_fields(s: Seq<u8>, from: int, to: int, c: (int, int, int, int), end: int) -> bool {
    &&& from <= c.0 < c.1 < c.2 < c.3 < end <= to
    &&& s[c.0] == 58 && s[c.1] == 58 && s[c.2] == 58 && s[c.3] == 58
    &&& end == to || s[end] == 58
    &&& free_of(s, from, c.0, 58)
    &&& free_of(s, c.0 + 1, c.1, 58)
    &&& free_of(s, c.1 + 1, c.2, 58)
    &&& free_of(s, c.2 + 1, c.3, 58)
    &&& free_of(s, c.3 + 1, end, 58)
}

/// Whether the line from `from` to `to` tells that a message begins at `place`: it has five
/// fields, and the second is that number.
pub open spec fn tells_place(
    s: Seq<u8>,
    from: int,
    to: int,
    c: (int, int, int, int),
    end: int,
    place: u64,
) -> bool {
    &&& is_line(s, from, to)
    &&& has_fields(s, from, to, c, end)
    &&& text::number_in(s.subrange(c.0 + 1, c.1)) == Some(place as nat)
}

/// Whether some line from `from` on tells that a message begins at `place`.
pub open spec fn begins_at(s: Seq<u8>, from: int, place: u64) -> bool {
    exists|to: int, c: (int, int, int, int), end: int| #[trigger]
        tells_place(s, from, to, c, end, place)
}

/// Whether the line from `from` to `to` tells that a message with wind at ten metres begins
/// at `place`: its second field is that number, its fourth field `UGRD` or `VGRD`, and its
/// fifth `10 m above ground`.
pub open spec fn tells_wind(
    s: Seq<u8>,
    from: int,
    to: int,
    c: (int, int, int, int),
    end: int,
    place: u64,
) -> bool {
    &&& is_line(s, from, to)
    &&& has_fields(s, from, to, c, end)
    &&& text::number_in(s.subrange(c.0 + 1, c.1)) == Some(place as nat)
    &&& {
        ||| s.subrange(c.2 + 1, c.3) == encode_utf8("UGRD"@)
        ||| s.subrange(c.2 + 1, c.3) == encode_utf8("VGRD"@)
    }
    &&& s.subrange(c.3 + 1, end) == encode_utf8("10 m above ground"@)
}

/// The first place of a byte.
proof fn lemma_find(s: Seq<u8>, b: u8)
    ensures
        index::find(s, b) <= s.len(),
        index::find(s, b) < s.len() ==> s[index::find(s, b) as int] == b,
        free_of(s, 0, index::find(s, b) as int, b),
    decreases s.len(),
{
    if s.len() > 0 && s[0] != b {
        lemma_find(s.skip(1), b);
        assert forall|k: int| 0 <= k < index::find(s, b) implies s[k] != b by {
            if k > 0 {
                assert(s[k] == s.skip(1)[k - 1]);
            }
        }
    }
}

/// The first separator parts off the first field.
proof fn lemma_first_part(s: Seq<u8>, from: int, c: int, to: int)
    requires
        0 <= from <= c <= to <= s.len(),
        free_of(s, from, c, 58),
        c == to || s[c] == 58,
    ensures
        c == to ==> index::parts(s.subrange(from, to), 58) == seq![s.subrange(from, to)],
        c < to ==> index::parts(s.subrange(from, to), 58) == seq![s.subrange(from, c)]
            + index::parts(s.subrange(c + 1, to), 58),
{
    let t = s.subrange(from, to);
    lemma_find(t, 58);
    let k = index::find(t, 58) as int;
    if k < c - from {
        assert(t[k] == s[from + k]);
    }
    if c < to {
        assert(t[c - from] == s[c]);
        assert(k == c - from);
        assert(t.take(k) =~= s.subrange(from, c));
        assert(t.skip(k + 1) =~= s.subrange(c + 1, to));
    } else {
        assert(k == t.len());
    }
}

/// The next separator, or the end.
spec fn next_colon(s: Seq<u8>, from: int, to: int) -> int {
    from + index::find(s.subrange(from, to), 58)
}

proof fn lemma_next_colon(s: Seq<u8>, from: int, to: int)
    requires
        0 <= from <= to <= s.len(),
    ensures
        from <= next_colon(s, from, to) <= to,
        next_colon(s, from, to) < to ==> s[next_colon(s, from, to)] == 58,
        free_of(s, from, next_colon(s, from, to), 58),
{
    let t = s.subrange(from, to);
    lemma_find(t, 58);
    assert forall|k: int| from <= k < next_colon(s, from, to) implies s[k] != 58 by {
        assert(s[k] == t[k - from]);
    }
}

/// The fields of a line.
proof fn lemma_fields(s: Seq<u8>, from: int, to: int, c: (int, int, int, int), end: int)
    requires
        0 <= from <= to <= s.len(),
        has_fields(s, from, to, c, end),
    ensures
        ({
            let fields = index::parts(s.subrange(from, to), 58);
            &&& fields.len() >= 5
            &&& fields[1] == s.subrange(c.0 + 1, c.1)
            &&& fields[3] == s.subrange(c.2 + 1, c.3)
            &&& fields[4] == s.subrange(c.3 + 1, end)
        }),
{
    lemma_first_part(s, from, c.0, to);
    lemma_first_part(s, c.0 + 1, c.1, to);
    lemma_first_part(s, c.1 + 1, c.2, to);
    lemma_first_part(s, c.2 + 1, c.3, to);
    lemma_first_part(s, c.3 + 1, end, to);
}

/// A line with five fields has four colons.
proof fn lemma_has_fields(s: Seq<u8>, from: int, to: int) -> (r: ((int, int, int, int), int))
    requires
        0 <= from <= to <= s.len(),
        index::parts(s.subrange(from, to), 58).len() >= 5,
    ensures
        has_fields(s, from, to, r.0, r.1),
{
    let c0 = next_colon(s, from, to);
    lemma_next_colon(s, from, to);
    lemma_first_part(s, from, c0, to);
    let c1 = next_colon(s, c0 + 1, to);
    lemma_next_colon(s, c0 + 1, to);
    lemma_first_part(s, c0 + 1, c1, to);
    let c2 = next_colon(s, c1 + 1, to);
    lemma_next_colon(s, c1 + 1, to);
    lemma_first_part(s, c1 + 1, c2, to);
    let c3 = next_colon(s, c2 + 1, to);
    lemma_next_colon(s, c2 + 1, to);
    lemma_first_part(s, c2 + 1, c3, to);
    let end = next_colon(s, c3 + 1, to);
    lemma_next_colon(s, c3 + 1, to);
    ((c0, c1, c2, c3), end)
}

/// The first line of what is left of a text, and where the next begins.
proof fn lemma_first_line(s: Seq<u8>, at: int) -> (r: (int, int))
    requires
        0 <= at < s.len(),
        at == 0 || s[at - 1] == 10,
    ensures
        is_line(s, at, r.0),
        at < r.1 <= s.len(),
        r.1 < s.len() ==> s[r.1 - 1] == 10,
        free_of(s, at, r.1 - 1, 10),
        index::lines(s.skip(at)) == seq![s.subrange(at, r.0)] + index::lines(s.skip(r.1)),
{
    let t = s.skip(at);
    lemma_find(t, 10);
    let k = index::find(t, 10) as int;
    assert forall|i: int| at <= i < at + k implies s[i] != 10 by {
        assert(s[i] == t[i - at]);
    }
    if k >= t.len() {
        assert(s.subrange(at, s.len() as int) =~= t);
        assert(s.skip(s.len() as int).len() == 0);
        assert(index::lines(s.skip(s.len() as int)) =~= Seq::empty());
        assert(index::lines(t) =~= seq![t]);
        assert(seq![t] + Seq::<Seq<u8>>::empty() =~= seq![t]);
        (s.len() as int, s.len() as int)
    } else {
        assert(t[k] == s[at + k]);
        let front = t.take(k);
        let to = if k > 0 && t[k - 1] == 13 {
            at + k - 1
        } else {
            at + k
        };
        assert(index::without_cr(front) =~= s.subrange(at, to));
        assert(t.skip(k + 1) =~= s.skip(at + k + 1));
        (to, at + k + 1)
    }
}

/// A line is known by where it begins.
proof fn lemma_one_line(s: Seq<u8>, from: int, a: int, b: int)
    requires
        is_line(s, from, a),
        is_line(s, from, b),
    ensures
        a == b,
{
    if a < b {
        assert(a < s.len());
        assert(s[a] != 10);
        assert(s[a] == 13 && s[a + 1] == 10);
        if b == a + 1 {
            assert(s[b - 1] == 13);
        } else {
            assert(s[a + 1] != 10);
        }
    }
    if b < a {
        assert(b < s.len());
        assert(s[b] != 10);
        assert(s[b] == 13 && s[b + 1] == 10);
        if a == b + 1 {
            assert(s[a - 1] == 13);
        } else {
            assert(s[b + 1] != 10);
        }
    }
}

/// The entries that hold wind come from lines that tell it.
proof fn lemma_entry_has_line(s: Seq<u8>, at: int, k: int) -> (r: (int, int, (int, int, int, int), int))
    requires
        0 <= at <= s.len(),
        at == 0 || at == s.len() || s[at - 1] == 10,
        0 <= k < index::entries(index::lines(s.skip(at))).len(),
        index::entries(index::lines(s.skip(at)))[k].1,
    ensures
        at <= r.0,
        tells_wind(s, r.0, r.1, r.2, r.3, index::entries(index::lines(s.skip(at)))[k].0),
    decreases s.len() - at,
{
    if at == s.len() {
        assert(index::lines(s.skip(at)) =~= Seq::empty());
        (0, 0, (0, 0, 0, 0), 0)
    } else {
        let (to, next) = lemma_first_line(s, at);
        let all = index::lines(s.skip(at));
        let line = s.subrange(at, to);
        assert(all[0] == line);
        assert(all.skip(1) =~= index::lines(s.skip(next)));
        match index::entry(line) {
            Some(e) => {
                if k == 0 {
                    let (c, end) = lemma_has_fields(s, at, to);
                    lemma_fields(s, at, to, c, end);
                    (at, to, c, end)
                } else {
                    lemma_entry_has_line(s, next, k - 1)
                }
            },
            None => lemma_entry_has_line(s, next, k),
        }
    }
}

/// Lines that tell wind are among the entries.
proof fn lemma_line_has_entry(
    s: Seq<u8>,
    at: int,
    from: int,
    to: int,
    c: (int, int, int, int),
    end: int,
    place: u64,
) -> (k: int)
    requires
        0 <= at <= from,
        at == 0 || s[at - 1] == 10,
        tells_wind(s, from, to, c, end, place),
    ensures
        0 <= k < index::entries(index::lines(s.skip(at))).len(),
        index::entries(index::lines(s.skip(at)))[k] == (place, true),
    decreases s.len() - at,
{
    let (stop, next) = lemma_first_line(s, at);
    let all = index::lines(s.skip(at));
    let line = s.subrange(at, stop);
    assert(all[0] == line);
    assert(all.skip(1) =~= index::lines(s.skip(next)));
    if from == at {
        lemma_one_line(s, at, stop, to);
        lemma_fields(s, from, to, c, end);
        assert(index::entry(line) == Some(
            (place, s.subrange(c.2 + 1, c.3), s.subrange(c.3 + 1, end)),
        ));
        0
    } else {
        if from < next {
            assert(s[from - 1] == 10);
            assert(from - 1 < next - 1);
        }
        let k = lemma_line_has_entry(s, next, from, to, c, end, place);
        if index::entry(line) is Some {
            k + 1
        } else {
            k
        }
    }
}

/// Where the lines begin that have an entry, in the order of the entries.
#[verifier::rlimit(80)]
proof fn lemma_starts(s: Seq<u8>, at: int) -> (starts: Seq<int>)
    requires
        0 <= at <= s.len(),
        at == 0 || at == s.len() || s[at - 1] == 10,
    ensures
        starts.len() == index::entries(index::lines(s.skip(at))).len(),
        forall|k: int| 0 <= k < starts.len() ==> at <= #[trigger] starts[k],
        forall|i: int, j: int| 0 <= i < j < starts.len() ==> starts[i] < starts[j],
        forall|k: int|
            0 <= k < starts.len() ==> begins_at(
                s,
                #[trigger] starts[k],
                index::entries(index::lines(s.skip(at)))[k].0,
            ),
        forall|from: int, place: u64|
            at <= from && #[trigger] begins_at(s, from, place) ==> starts.contains(from),
        forall|from: int, to: int, c: (int, int, int, int), end: int, place: u64, k: int|
            0 <= k < starts.len() && starts[k] == from && #[trigger] tells_wind(
                s,
                from,
                to,
                c,
                end,
                place,
            ) ==> (#[trigger] index::entries(index::lines(s.skip(at)))[k]) == (place, true),
    decreases s.len() - at,
{
    if at == s.len() {
        assert(index::lines(s.skip(at)) =~= Seq::empty());
        Seq::empty()
    } else {
        let (stop, next) = lemma_first_line(s, at);
        let all = index::lines(s.skip(at));
        let line = s.subrange(at, stop);
        let later = index::entries(index::lines(s.skip(next)));
        assert(all[0] == line);
        assert(all.skip(1) =~= index::lines(s.skip(next)));
        let rest = lemma_starts(s, next);
        let starts = if index::entry(line) is Some {
            seq![at] + rest
        } else {
            rest
        };
        assert forall|k: int| 0 <= k < starts.len() implies at <= #[trigger] starts[k] && begins_at(
            s,
            starts[k],
            index::entries(all)[k].0,
        ) by {
            if index::entry(line) is Some {
                if k == 0 {
                    let (c, end) = lemma_has_fields(s, at, stop);
                    lemma_fields(s, at, stop, c, end);
                    assert(tells_place(s, at, stop, c, end, index::entries(all)[0].0));
                } else {
                    assert(starts[k] == rest[k - 1]);
                    assert(index::entries(all)[k] == later[k - 1]);
                }
            }
        }
        assert forall|i: int, j: int| 0 <= i < j < starts.len() implies starts[i] < starts[j] by {
            if index::entry(line) is Some {
                assert(starts[j] == rest[j - 1]);
                if i > 0 {
                    assert(starts[i] == rest[i - 1]);
                }
            }
        }
        assert forall|from: int, place: u64| at <= from && #[trigger] begins_at(s, from, place) implies starts.contains(
            from,
        ) by {
            let (to, c, end) = choose|to: int, c: (int, int, int, int), end: int| #[trigger]
                tells_place(s, from, to, c, end, place);
            if from == at {
                lemma_one_line(s, at, stop, to);
                lemma_fields(s, from, to, c, end);
                assert(index::entry(line) is Some);
                assert(starts[0] == at);
            } else {
                if from < next {
                    assert(s[from - 1] == 10);
                    assert(from - 1 < next - 1);
                }
                assert(rest.contains(from));
                let i = choose|i: int| 0 <= i < rest.len() && rest[i] == from;
                assert(starts[if index::entry(line) is Some {
                    i + 1
                } else {
                    i
                }] == from);
            }
        }
        assert forall|from: int, to: int, c: (int, int, int, int), end: int, place: u64, k: int|
            0 <= k < starts.len() && starts[k] == from && #[trigger] tells_wind(
                s,
                from,
                to,
                c,
                end,
                place,
            ) implies (#[trigger] index::entries(index::lines(s.skip(at)))[k]) == (place, true) by {
            if from == at {
                lemma_one_line(s, at, stop, to);
                lemma_fields(s, from, to, c, end);
                assert(k == 0);
            } else if index::entry(line) is Some {
                assert(rest[k - 1] == from);
                assert(later[k - 1] == (place, true));
            } else {
                assert(rest[k] == from);
                assert(later[k] == (place, true));
            }
        }
        starts
    }
}

/// A run ends where the message of the next line begins that tells a place; without such a
/// line it has no end.
pub proof fn law_run_ends_at_the_next_place(
    idx: Seq<char>,
    from: int,
    to: int,
    c: (int, int, int, int),
    end: int,
    place: u64,
    after: int,
    stop: u64,
)
    requires
        tells_wind(encode_utf8(idx), from, to, c, end, place),
        from < after,
        forall|between: int, p: u64|
            from < between < after ==> !#[trigger] begins_at(encode_utf8(idx), between, p),
    ensures
        begins_at(encode_utf8(idx), after, stop) ==> index::wind_ranges(idx).contains(
            (place, Some(stop)),
        ),
        after >= encode_utf8(idx).len() ==> index::wind_ranges(idx).contains((place, None)),
{
    let s = encode_utf8(idx);
    assert(s.skip(0) =~= s);
    let entries = index::entries(index::lines(s));
    let starts = lemma_starts(s, 0);
    assert(tells_place(s, from, to, c, end, place));
    assert(begins_at(s, from, place));
    assert(starts.contains(from));
    let k = choose|k: int| 0 <= k < starts.len() && starts[k] == from;
    assert(entries[k] == (place, true));
    let begins = |at: int, p: u64| begins_at(s, at, p);
    assert forall|at: int, p: u64| #[trigger] begins(at, p) implies at < s.len() by {
        lemma_begins_within(s, at, p);
    }
    assert forall|at: int, p: u64, q: u64| #[trigger] begins(at, p) && #[trigger] begins(at, q) implies p
        == q by {
        lemma_one_place(s, at, p, q);
    }
    lemma_next_entry(entries, starts, begins, s.len() as int, k, after, stop);
    if begins_at(s, after, stop) {
        law_runs_are_of_wind_entries(entries, (place, Some(stop)));
    }
    if after >= s.len() {
        law_runs_are_of_wind_entries(entries, (place, None));
    }
}

/// Lines begin within the text.
proof fn lemma_begins_within(s: Seq<u8>, from: int, p: u64)
    requires
        begins_at(s, from, p),
    ensures
        from < s.len(),
{
}

/// The entry behind another is the one of the next line with an entry.
proof fn lemma_next_entry(
    entries: Seq<(u64, bool)>,
    starts: Seq<int>,
    begins: spec_fn(int, u64) -> bool,
    len: int,
    k: int,
    after: int,
    stop: u64,
)
    requires
        starts.len() == entries.len(),
        forall|i: int, j: int| 0 <= i < j < starts.len() ==> starts[i] < starts[j],
        forall|i: int| 0 <= i < starts.len() ==> begins(#[trigger] starts[i], entries[i].0),
        forall|at: int, p: u64| 0 <= at && #[trigger] begins(at, p) ==> starts.contains(at),
        forall|at: int, p: u64| #[trigger] begins(at, p) ==> at < len,
        forall|at: int, p: u64, q: u64| #[trigger]
            begins(at, p) && #[trigger] begins(at, q) ==> p == q,
        0 <= k < starts.len(),
        0 <= starts[k] < after,
        forall|at: int, p: u64| starts[k] < at < after ==> !#[trigger] begins(at, p),
    ensures
        begins(after, stop) ==> k + 1 < entries.len() && entries[k + 1].0 == stop,
        after >= len ==> k + 1 == entries.len(),
{
    if k + 1 < starts.len() {
        assert(starts[k] < starts[k + 1]);
        assert(begins(starts[k + 1], entries[k + 1].0));
    }
    if begins(after, stop) {
        let m = choose|m: int| 0 <= m < starts.len() && starts[m] == after;
        assert(begins(starts[m], entries[m].0));
        if m < k {
            assert(starts[m] < starts[k]);
        }
        if m > k + 1 {
            assert(starts[k + 1] < starts[m]);
        }
    }
}

/// A line tells one place.
proof fn lemma_one_place(s: Seq<u8>, from: int, p: u64, q: u64)
    requires
        begins_at(s, from, p),
        begins_at(s, from, q),
    ensures
        p == q,
{
    let (a, c, e) = choose|a: int, c: (int, int, int, int), e: int| #[trigger]
        tells_place(s, from, a, c, e, p);
    let (b, d, f) = choose|b: int, d: (int, int, int, int), f: int| #[trigger]
        tells_place(s, from, b, d, f, q);
    lemma_one_line(s, from, a, b);
    lemma_fields(s, from, a, c, e);
    lemma_fields(s, from, b, d, f);
}

/// The runs of entries are those of the ones that hold wind, each from its own place up to
/// the place of the entry behind it.
pub proof fn law_runs_are_of_wind_entries(entries: Seq<(u64, bool)>, run: ByteRange)
    ensures
        index::wind_runs(entries).contains(run) <==> exists|k: int|
            {
                &&& 0 <= k < entries.len()
                &&& #[trigger] entries[k] == (run.0, true)
                &&& k + 1 < entries.len() ==> run.1 == Some(entries[k + 1].0)
                &&& k + 1 == entries.len() ==> run.1 is None
            },
    decreases entries.len(),
{
    let runs = index::wind_runs(entries);
    if entries.len() > 0 {
        let rest = entries.skip(1);
        law_runs_are_of_wind_entries(rest, run);
        let later = index::wind_runs(rest);
        if runs.contains(run) {
            let i = choose|i: int| 0 <= i < runs.len() && runs[i] == run;
            if entries[0].1 && i == 0 {
                assert(entries[0] == (run.0, true));
            } else {
                let j = if entries[0].1 {
                    i - 1
                } else {
                    i
                };
                assert(later[j] == run);
                assert(later.contains(run));
                let k = choose|k: int|
                    {
                        &&& 0 <= k < rest.len()
                        &&& #[trigger] rest[k] == (run.0, true)
                        &&& k + 1 < rest.len() ==> run.1 == Some(rest[k + 1].0)
                        &&& k + 1 == rest.len() ==> run.1 is None
                    };
                assert(entries[k + 1] == (run.0, true));
            }
        }
        if exists|k: int|
            {
                &&& 0 <= k < entries.len()
                &&& #[trigger] entries[k] == (run.0, true)
                &&& k + 1 < entries.len() ==> run.1 == Some(entries[k + 1].0)
                &&& k + 1 == entries.len() ==> run.1 is None
            } {
            let k = choose|k: int|
                {
                    &&& 0 <= k < entries.len()
                    &&& #[trigger] entries[k] == (run.0, true)
                    &&& k + 1 < entries.len() ==> run.1 == Some(entries[k + 1].0)
                    &&& k + 1 == entries.len() ==> run.1 is None
                };
            if k == 0 {
                assert(runs[0] == run);
            } else {
                assert(rest[k - 1] == (run.0, true));
                assert(later.contains(run));
                let i = choose|i: int| 0 <= i < later.len() && later[i] == run;
                assert(runs[if entries[0].1 {
                    i + 1
                } else {
                    i
                }] == run);
            }
        }
    }
}

/// Every run that an index gives begins at the place of a line whose fourth field is `UGRD`
/// or `VGRD` and whose fifth is `10 m above ground`.
pub proof fn law_runs_begin_at_wind_lines(idx: Seq<char>, k: int) -> (r: (
    int,
    int,
    (int, int, int, int),
    int,
))
    requires
        0 <= k < index::wind_ranges(idx).len(),
    ensures
        tells_wind(encode_utf8(idx), r.0, r.1, r.2, r.3, index::wind_ranges(idx)[k].0),
{
    let s = encode_utf8(idx);
    let entries = index::entries(index::lines(s));
    let run = index::wind_ranges(idx)[k];
    assert(index::wind_runs(entries).contains(run));
    law_runs_are_of_wind_entries(entries, run);
    let m = choose|m: int|
        {
            &&& 0 <= m < entries.len()
            &&& #[trigger] entries[m] == (run.0, true)
            &&& m + 1 < entries.len() ==> run.1 == Some(entries[m + 1].0)
            &&& m + 1 == entries.len() ==> run.1 is None
        };
    assert(s.skip(0) =~= s);
    lemma_entry_has_line(s, 0, m)
}

/// Every line that tells of wind at ten metres and of its place gives a run.
pub proof fn law_wind_lines_give_runs(
    idx: Seq<char>,
    from: int,
    to: int,
    c: (int, int, int, int),
    end: int,
    place: u64,
) -> (k: int)
    requires
        tells_wind(encode_utf8(idx), from, to, c, end, place),
    ensures
        0 <= k < index::wind_ranges(idx).len(),
        index::wind_ranges(idx)[k].0 == place,
{
    let s = encode_utf8(idx);
    assert(s.skip(0) =~= s);
    let m = lemma_line_has_entry(s, 0, from, to, c, end, place);
    let entries = index::entries(index::lines(s));
    let run: ByteRange = (
        place,
        if m + 1 < entries.len() {
            Some(entries[m + 1].0)
        } else {
            None
        },
    );
    law_runs_are_of_wind_entries(entries, run);
    assert(entries[m] == (run.0, true));
    assert(index::wind_runs(entries).contains(run));
    choose|k: int| 0 <= k < index::wind_ranges(idx).len() && index::wind_ranges(idx)[k] == run
}

/// An index without a line that tells of wind at ten metres gives no run.
pub proof fn law_no_wind_line_gives_no_run(idx: Seq<char>)
    requires
        forall|from: int, to: int, c: (int, int, int, int), end: int, place: u64|
            !#[trigger] tells_wind(encode_utf8(idx), from, to, c, end, place),
    ensures
        index::wind_ranges(idx).len() == 0,
{
    if index::wind_ranges(idx).len() > 0 {
        let r = law_runs_begin_at_wind_lines(idx, 0);
    }
}

} // verus!
