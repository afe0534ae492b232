//! Ensembles of wind maps: which files make one up, and their mean.
use crate::bytes;
use crate::given;
use crate::io;
use crate::io_error::IoError;
use crate::number::{Real, Real32};
use crate::paths;
use crate::wind_map::baked::{BakedWindMap, Wind};
use crate::wind_map::TimedWindMap;
use vstd::prelude::*;
use vstd::seq_lib::*;
use vstd::string::*;
use vstd::utf8::*;

verus! {

/// Why an ensemble cannot be loaded.
#[derive(Debug)]
pub enum EnsembleLoadError {
    /// The directory cannot be read.
    OpenDir { path: String, source: IoError },
    /// The directory holds no member.
    NoMembers { path: String },
    /// A member cannot be loaded.
    Decode { member: String, source: io::LoadError },
}

impl EnsembleLoadError {
    /// The error in words. `show` writes numbers.
    pub open spec fn words<S: Fn(Real32) -> String>(&self, show: S) -> Seq<char> {
        match self {
            EnsembleLoadError::OpenDir { path, source } => "cannot open ensemble directory "@
                + path@ + ": "@ + source.message@,
            EnsembleLoadError::NoMembers { path } => "ensemble directory "@ + path@
                + " contains no `ge[cp]*.wcav` files"@,
            EnsembleLoadError::Decode { member, source } => "decoding member "@ + member@ + ": "@
                + source.words(show),
        }
    }

    /// The error in words. `show` writes numbers.
    pub fn message<S: Fn(Real32) -> String>(&self, show: &S) -> (s: String)
        requires
            given::worded1(*show),
        ensures
            s@ == self.words(*show),
    {
        match self {
            EnsembleLoadError::OpenDir { path, source } => {
                let mut s: String = "cannot open ensemble directory ".to_owned();
                s.append(path.as_str());
                s.append(": ");
                s.append(source.message.as_str());
                s
            },
            EnsembleLoadError::NoMembers { path } => {
                let mut s: String = "ensemble directory ".to_owned();
                s.append(path.as_str());
                s.append(" contains no `ge[cp]*.wcav` files");
                s
            },
            EnsembleLoadError::Decode { member, source } => {
                let mut s: String = "decoding member ".to_owned();
                s.append(member.as_str());
                s.append(": ");
                s.append(source.message(show).as_str());
                s
            },
        }
    }
}

/// Whether a stem is that of a member: `gec` or `gep` and at least two digits.
pub open spec fn names_member(stem: Seq<u8>) -> bool {
    &&& stem.len() >= 5
    &&& stem.take(3) == encode_utf8("gec"@) || stem.take(3) == encode_utf8("gep"@)
    &&& forall|k: int| 3 <= k < stem.len() ==> 48 <= #[trigger] stem[k] <= 57
}

/// Whether a file of this name holds a member.
pub open spec fn is_member(name: Seq<char>) -> bool {
    let b = encode_utf8(name);
    &&& paths::file_name(b) == b
    &&& paths::extension(b) == Some(encode_utf8("wcav"@))
    &&& names_member(paths::stem(b))
}

/// Whether bytes come before others, as words do in a dictionary.
pub open spec fn before(a: Seq<u8>, b: Seq<u8>) -> bool
    decreases b.len(),
{
    if b.len() == 0 {
        false
    } else if a.len() == 0 {
        true
    } else if a[0] != b[0] {
        a[0] < b[0]
    } else {
        before(a.skip(1), b.skip(1))
    }
}

proof fn lemma_before_chains(a: Seq<u8>, b: Seq<u8>, c: Seq<u8>)
    requires
        before(a, b),
        before(b, c),
    ensures
        before(a, c),
    decreases c.len(),
{
    if a.len() > 0 && b.len() > 0 && c.len() > 0 && a[0] == b[0] && b[0] == c[0] {
        lemma_before_chains(a.skip(1), b.skip(1), c.skip(1));
    }
}

/// Whether names are in the order of a dictionary.
pub open spec fn in_order(names: Seq<Seq<char>>) -> bool {
    forall|i: int, j: int|
        0 <= i < j < names.len() ==> !before(
            encode_utf8(#[trigger] names[j]),
            encode_utf8(#[trigger] names[i]),
        )
}

/// The characters of names.
pub open spec fn spelled(names: Seq<String>) -> Seq<Seq<char>> {
    names.map_values(|s: String| s@)
}

/// Whether bytes come before others.
fn comes_before(a: &[u8], b: &[u8]) -> (r: bool)
    ensures
        r == before(a@, b@),
{
    let mut k: usize = 0;
    assert(a@.skip(0) =~= a@);
    assert(b@.skip(0) =~= b@);
    while k < a.len() && k < b.len() && a[k] == b[k]
        invariant
            k <= a@.len(),
            k <= b@.len(),
            before(a@, b@) == before(a@.skip(k as int), b@.skip(k as int)),
        decreases a@.len() - k,
    {
        assert(a@.skip(k as int).skip(1) =~= a@.skip(k + 1));
        assert(b@.skip(k as int).skip(1) =~= b@.skip(k + 1));
        k += 1;
    }
    if k == b.len() {
        false
    } else if k == a.len() {
        true
    } else {
        a[k] < b[k]
    }
}

/// Where the stem of a member's file name ends; `None` where the file holds no member.
fn member_stem(name: &str) -> (dot: Option<usize>)
    ensures
        dot is Some <==> is_member(name@),
        dot matches Some(d) ==> d < encode_utf8(name@).len() && encode_utf8(name@)[d as int] == 46
            && paths::stem(encode_utf8(name@)) == encode_utf8(name@).take(d as int),
{
    let b: &[u8] = name.as_bytes();
    let (start, dot, end) = paths::extension_span(b);
    proof {
        paths::law_stem_and_extension(b@);
    }
    let dot: usize = match dot {
        Some(dot) => dot,
        None => {
            return None;
        },
    };
    if start != 0 || end != b.len() {
        proof {
            paths::lemma_span_of_whole(b@, start as int, dot as int, end as int);
        }
        return None;
    }
    let ghost stem = b@.take(dot as int);
    let ghost ext = b@.subrange(dot + 1, end as int);
    proof {
        assert(stem =~= b@.subrange(0, dot as int));
        assert(paths::file_name(b@) =~= stem + seq![46u8] + ext);
        assert(paths::file_name(b@).len() == b@.len());
        paths::lemma_name_of_whole(b@);
        assert(paths::file_name(b@) == b@);
        assert(b@[dot as int] == (stem + seq![46u8] + ext)[dot as int]);
    }
    let wcav: &[u8] = "wcav".as_bytes();
    if end - (dot + 1) != wcav.len() || !bytes::holds_at(b, dot + 1, wcav) {
        return None;
    }
    let gec: &[u8] = "gec".as_bytes();
    let gep: &[u8] = "gep".as_bytes();
    proof {
        reveal_strlit("gec");
        reveal_strlit("gep");
        is_ascii_chars_encode_utf8("gec"@);
        is_ascii_chars_encode_utf8("gep"@);
    }
    if dot < 5 {
        return None;
    }
    assert(stem.take(3) =~= b@.subrange(0, 3));
    if !bytes::holds_at(b, 0, gec) && !bytes::holds_at(b, 0, gep) {
        return None;
    }
    let mut k: usize = 3;
    while k < dot
        invariant
            3 <= k <= dot < b@.len(),
            stem == b@.take(dot as int),
            stem == paths::stem(b@),
            forall|i: int| 3 <= i < k ==> 48 <= #[trigger] stem[i] <= 57,
            b@ == encode_utf8(name@),
        decreases dot - k,
    {
        if b[k] < 48 || b[k] > 57 {
            assert(!(48 <= stem[k as int] <= 57));
            return None;
        }
        k += 1;
    }
    Some(dot)
}

/// The name of the member that a file holds.
pub fn member_name(file: &str) -> (name: String)
    requires
        is_member(file@),
    ensures
        encode_utf8(name@) == paths::stem(encode_utf8(file@)),
{
    match member_stem(file) {
        Some(dot) => {
            proof {
                encode_utf8_valid_utf8(file@);
                is_char_boundary_iff_not_is_continuation_byte(
                    encode_utf8(file@),
                    dot as int,
                );
                assert(!is_continuation_byte(46));
            }
            let (stem, _rest): (&str, &str) = file.split_at(dot);
            assert(encode_utf8(stem@) =~= encode_utf8(file@).take(dot as int));
            stem.to_owned()
        },
        None => "".to_owned(),
    }
}

/// The files of a directory that hold members, in the order of a dictionary, so that
/// a member has the same number in every run. `NoMembers` where there is none.
pub fn discover(dir: &str, entries: Vec<String>) -> (r: Result<Vec<String>, EnsembleLoadError>)
    ensures
        match r {
            Ok(files) => {
                &&& files@.len() > 0
                &&& in_order(spelled(files@))
                &&& spelled(files@).to_multiset() == spelled(entries@).filter(
                    |n: Seq<char>| is_member(n),
                ).to_multiset()
            },
            Err(e) => {
                &&& (e matches EnsembleLoadError::NoMembers { path } && path@ == dir@)
                &&& forall|k: int| 0 <= k < entries@.len() ==> !is_member((#[trigger] entries@[k])@)
            },
        },
{
    let ghost given_names = spelled(entries@);
    let ghost keep = |n: Seq<char>| is_member(n);
    let mut files: Vec<String> = Vec::new();
    let mut k: usize = 0;
    proof {
        assert(given_names.take(0).filter(keep) =~= Seq::<Seq<char>>::empty()) by {
            reveal(Seq::filter);
        }
        assert(spelled(files@) =~= Seq::<Seq<char>>::empty());
    }
    while k < entries.len()
        invariant
            k <= entries@.len(),
            given_names == spelled(entries@),
            keep == (|n: Seq<char>| is_member(n)),
            in_order(spelled(files@)),
            spelled(files@).to_multiset() == given_names.take(k as int).filter(keep).to_multiset(),
            files@.len() == 0 ==> forall|j: int|
                0 <= j < k ==> !is_member((#[trigger] entries@[j])@),
        decreases entries@.len() - k,
    {
        let name: &str = entries[k].as_str();
        let ghost old_files = spelled(files@);
        proof {
            assert(given_names.take(k + 1) =~= given_names.take(k as int).push(name@));
            assert(given_names.take(k + 1).drop_last() =~= given_names.take(k as int));
            reveal(Seq::filter);
            assert(given_names.take(k + 1).filter(keep) == if is_member(name@) {
                given_names.take(k as int).filter(keep).push(name@)
            } else {
                given_names.take(k as int).filter(keep)
            });
        }
        if member_stem(name).is_some() {
            let at: usize = place_among(&files, name);
            files.insert(at, name.to_owned());
            proof {
                assert(spelled(files@) =~= old_files.insert(at as int, name@));
                lemma_insert_in_order(old_files, name@, at as int);
                lemma_multiset_insert(old_files, at as int, name@);
                broadcast use group_to_multiset_ensures;

            }
        }
        k += 1;
    }
    proof {
        assert(given_names.take(k as int) =~= given_names);
    }
    if files.len() == 0 {
        return Err(EnsembleLoadError::NoMembers { path: dir.to_owned() });
    }
    Ok(files)
}

/// Putting a name into a sequence adds it to what the sequence holds.
proof fn lemma_multiset_insert(names: Seq<Seq<char>>, at: int, name: Seq<char>)
    requires
        0 <= at <= names.len(),
    ensures
        names.insert(at, name).to_multiset() == names.to_multiset().insert(name),
    decreases names.len() - at,
{
    broadcast use group_to_multiset_ensures;

    if at == names.len() {
        assert(names.insert(at, name) =~= names.push(name));
    } else {
        let front = names.drop_last();
        assert(names =~= front.push(names.last()));
        lemma_multiset_insert(front, at, name);
        assert(names.insert(at, name) =~= front.insert(at, name).push(names.last()));
        assert(front.to_multiset().insert(name).insert(names.last())
            =~= front.to_multiset().insert(names.last()).insert(name));
    }
}

/// Where a name goes among names in order: behind all that it does not come before.
fn place_among(files: &Vec<String>, name: &str) -> (at: usize)
    ensures
        at <= files@.len(),
        forall|i: int|
            0 <= i < at ==> !before(encode_utf8(name@), encode_utf8((#[trigger] files@[i])@)),
        at < files@.len() ==> before(encode_utf8(name@), encode_utf8(files@[at as int]@)),
{
    let b: &[u8] = name.as_bytes();
    let mut at: usize = 0;
    while at < files.len()
        invariant
            at <= files@.len(),
            b@ == encode_utf8(name@),
            forall|i: int|
                0 <= i < at ==> !before(encode_utf8(name@), encode_utf8((#[trigger] files@[i])@)),
        decreases files@.len() - at,
    {
        if comes_before(b, files[at].as_str().as_bytes()) {
            return at;
        }
        at += 1;
    }
    at
}

/// A name put where it goes leaves names in order.
proof fn lemma_insert_in_order(names: Seq<Seq<char>>, name: Seq<char>, at: int)
    requires
        0 <= at <= names.len(),
        in_order(names),
        forall|i: int| 0 <= i < at ==> !before(encode_utf8(name), encode_utf8(#[trigger] names[i])),
        at < names.len() ==> before(encode_utf8(name), encode_utf8(names[at])),
    ensures
        in_order(names.insert(at, name)),
{
    let grown = names.insert(at, name);
    assert forall|i: int, j: int| 0 <= i < j < grown.len() implies !before(
        encode_utf8(#[trigger] grown[j]),
        encode_utf8(#[trigger] grown[i]),
    ) by {
        let (x, y) = (encode_utf8(grown[i]), encode_utf8(grown[j]));
        if i == at {
            assert(grown[j] == names[j - 1]);
            if before(y, x) {
                lemma_before_chains(y, x, encode_utf8(names[at]));
                if j - 1 == at {
                    lemma_not_before_self(y);
                }
            }
        } else if j == at {
            assert(grown[i] == names[i]);
        } else {
            let a = if i < at {
                i
            } else {
                i - 1
            };
            let b = if j < at {
                j
            } else {
                j - 1
            };
            assert(grown[i] == names[a]);
            assert(grown[j] == names[b]);
        }
    }
}

proof fn lemma_not_before_self(a: Seq<u8>)
    ensures
        !before(a, a),
    decreases a.len(),
{
    if a.len() > 0 {
        lemma_not_before_self(a.skip(1));
    }
}

/// Wind over time from each member.
pub struct TimedEnsembleWindMap {
    pub members: Vec<TimedWindMap>,
    pub member_names: Vec<String>,
}

impl TimedEnsembleWindMap {
    /// Whether every member has a name.
    pub open spec fn wf(&self) -> bool {
        self.members@.len() == self.member_names@.len()
    }

    /// An ensemble of members and their names.
    pub fn from_members(members: Vec<TimedWindMap>, member_names: Vec<String>) -> (e: Self)
        requires
            members@.len() == member_names@.len(),
        ensures
            e.wf(),
            e.members == members,
            e.member_names == member_names,
    {
        TimedEnsembleWindMap { members, member_names }
    }

    /// How many members there are.
    pub fn member_count(&self) -> (n: usize)
        ensures
            n == self.members@.len(),
    {
        self.members.len()
    }

    /// The members.
    pub fn members(&self) -> (m: &Vec<TimedWindMap>)
        ensures
            *m == self.members,
    {
        &self.members
    }

    /// The names of the members.
    pub fn member_names(&self) -> (n: &Vec<String>)
        ensures
            *n == self.member_names,
    {
        &self.member_names
    }

    /// The ensemble resampled: `bake` gives the wind of the member of that number.
    pub fn bake<B: Fn(usize) -> BakedWindMap>(&self, bake: &B) -> (e: BakedEnsembleWindMap)
        requires
            self.wf(),
            forall|k: usize| #[trigger] call_requires(*bake, (k,)),
        ensures
            e.wf(),
            e.members@.len() == self.members@.len(),
            forall|k: int|
                0 <= k < e.members@.len() ==> call_ensures(
                    *bake,
                    (k as usize,),
                    #[trigger] e.members@[k],
                ),
            forall|k: int|
                0 <= k < e.members@.len() ==> (#[trigger] e.member_names@[k])@
                    == self.member_names@[k]@,
    {
        let mut members: Vec<BakedWindMap> = Vec::new();
        let mut member_names: Vec<String> = Vec::new();
        let mut k: usize = 0;
        while k < self.members.len()
            invariant
                self.wf(),
                forall|k: usize| #[trigger] call_requires(*bake, (k,)),
                k <= self.members@.len(),
                members@.len() == k,
                member_names@.len() == k,
                forall|j: int|
                    0 <= j < k ==> call_ensures(*bake, (j as usize,), #[trigger] members@[j]),
                forall|j: int|
                    0 <= j < k ==> (#[trigger] member_names@[j])@ == self.member_names@[j]@,
            decreases self.members@.len() - k,
        {
            members.push(bake(k));
            member_names.push(self.member_names[k].as_str().to_owned());
            k += 1;
        }
        BakedEnsembleWindMap { members, member_names }
    }
}

/// Resampled wind from each member, on the same grid.
#[derive(Clone, Debug)]
pub struct BakedEnsembleWindMap {
    pub members: Vec<BakedWindMap>,
    pub member_names: Vec<String>,
}

/// The sum of the winds of the first `n` members at a place of the grid.
pub open spec fn total<P: Fn(Wind, Wind) -> Wind>(
    members: Seq<BakedWindMap>,
    p: int,
    n: int,
    plus: P,
) -> Wind
    decreases n,
{
    if n <= 0 {
        Wind { east_mps: Real { bits: 0 }, north_mps: Real { bits: 0 } }
    } else {
        given::gives2(plus, total(members, p, n - 1, plus), members[n - 1].grid@[p])
    }
}

/// The sum of the winds at a place is built up member by member: it begins with calm, and
/// each member adds the wind that it has at that place. Whatever goes through those steps
/// comes to the sum.
pub proof fn law_sum_takes_each_member_at_the_place<P: Fn(Wind, Wind) -> Wind>(
    members: Seq<BakedWindMap>,
    p: int,
    n: int,
    plus: P,
    sums: Seq<Wind>,
)
    requires
        0 <= n <= members.len(),
        sums.len() == n + 1,
        sums[0].east_mps.bits == 0 && sums[0].north_mps.bits == 0,
        forall|k: int|
            0 <= k < n ==> #[trigger] sums[k + 1] == given::gives2(
                plus,
                sums[k],
                members[k].grid@[p],
            ),
    ensures
        total(members, p, n, plus) == sums[n],
    decreases n,
{
    if n > 0 {
        law_sum_takes_each_member_at_the_place(members, p, n - 1, plus, sums.take(n));
        assert(sums[(n - 1) + 1] == given::gives2(plus, sums[n - 1], members[n - 1].grid@[p]));
    }
}

/// With one member the sum is what that member has at the place, added to calm.
pub proof fn law_sum_of_one_member<P: Fn(Wind, Wind) -> Wind>(
    members: Seq<BakedWindMap>,
    p: int,
    plus: P,
)
    requires
        members.len() >= 1,
    ensures
        total(members, p, 1, plus) == given::gives2(
            plus,
            (Wind { east_mps: (Real { bits: 0 }), north_mps: (Real { bits: 0 }) }),
            members[0].grid@[p],
        ),
{
    reveal_with_fuel(total, 2);
}

/// One member more adds the wind that it has at the place to the sum of those before it.
pub proof fn law_sum_with_one_member_more<P: Fn(Wind, Wind) -> Wind>(
    members: Seq<BakedWindMap>,
    m: BakedWindMap,
    p: int,
    plus: P,
)
    ensures
        total(members.push(m), p, (members.len() + 1) as int, plus) == given::gives2(
            plus,
            total(members, p, members.len() as int, plus),
            m.grid@[p],
        ),
{
    law_sum_is_of_its_place(members, members.push(m), p, p, members.len() as int, plus);
}

/// Members that have the same winds at two places have the same sums there, whatever they
/// hold elsewhere.
pub proof fn law_sum_is_of_its_place<P: Fn(Wind, Wind) -> Wind>(
    members: Seq<BakedWindMap>,
    others: Seq<BakedWindMap>,
    p: int,
    q: int,
    n: int,
    plus: P,
)
    requires
        0 <= n <= members.len(),
        n <= others.len(),
        forall|k: int|
            0 <= k < n ==> (#[trigger] members[k]).grid@[p] == (#[trigger] others[k]).grid@[q],
    ensures
        total(members, p, n, plus) == total(others, q, n, plus),
    decreases n,
{
    if n > 0 {
        law_sum_is_of_its_place(members, others, p, q, n - 1, plus);
        assert(members[n - 1].grid@[p] == others[n - 1].grid@[q]);
    }
}

/// Whether two maps have the same cells at the same places and the same times.
pub open spec fn on_grid_of(m: BakedWindMap, other: BakedWindMap) -> bool {
    &&& m.nx == other.nx
    &&& m.ny == other.ny
    &&& m.nt == other.nt
    &&& m.x_min.equals(other.x_min)
    &&& m.y_min.equals(other.y_min)
    &&& m.step.equals(other.step)
    &&& m.t_step_seconds.equals(other.t_step_seconds)
}

impl BakedEnsembleWindMap {
    /// Whether every member has a name.
    pub open spec fn wf(&self) -> bool {
        self.members@.len() == self.member_names@.len()
    }

    /// Whether all members are on the grid of the first.
    pub open spec fn aligned(&self) -> bool {
        forall|k: int|
            0 <= k < self.members@.len() ==> {
                let m = #[trigger] self.members@[k];
                m.wf() && (k > 0 ==> on_grid_of(m, self.members@[0]))
            }
    }

    /// An ensemble of members and their names.
    pub fn from_members(members: Vec<BakedWindMap>, member_names: Vec<String>) -> (e: Self)
        requires
            members@.len() == member_names@.len(),
        ensures
            e.wf(),
            e.members == members,
            e.member_names == member_names,
    {
        BakedEnsembleWindMap { members, member_names }
    }

    /// How many members there are.
    pub fn member_count(&self) -> (n: usize)
        ensures
            n == self.members@.len(),
    {
        self.members.len()
    }

    /// A member.
    pub fn member(&self, k: usize) -> (m: &BakedWindMap)
        requires
            k < self.members@.len(),
        ensures
            *m == self.members@[k as int],
    {
        &self.members[k]
    }

    /// The members.
    pub fn members(&self) -> (m: &Vec<BakedWindMap>)
        ensures
            *m == self.members,
    {
        &self.members
    }

    /// The names of the members.
    pub fn member_names(&self) -> (n: &Vec<String>)
        ensures
            *n == self.member_names,
    {
        &self.member_names
    }

    /// The mean of the members: at each place of the grid, the sum of their winds,
    /// shared among them. `plus` adds winds and `share` divides one. All else is as in
    /// the first member.
    pub fn mean<P: Fn(Wind, Wind) -> Wind, D: Fn(Wind, usize) -> Wind>(
        &self,
        plus: &P,
        share: &D,
    ) -> (mean: BakedWindMap)
        requires
            self.members@.len() > 0,
            self.aligned(),
            given::settled2(*plus),
            given::settled2(*share),
        ensures
            mean.wf(),
            mean.nx == self.members@[0].nx,
            mean.ny == self.members@[0].ny,
            mean.nt == self.members@[0].nt,
            mean.x_min == self.members@[0].x_min,
            mean.y_min == self.members@[0].y_min,
            mean.step == self.members@[0].step,
            mean.t_step_seconds == self.members@[0].t_step_seconds,
            mean.crossfade_seconds == self.members@[0].crossfade_seconds,
            mean.coord_scale == self.members@[0].coord_scale,
            forall|p: int|
                0 <= p < mean.grid@.len() ==> #[trigger] mean.grid@[p] == given::gives2(
                    *share,
                    total(self.members@, p, self.members@.len() as int, *plus),
                    self.members@.len() as usize,
                ),
    {
        let count: usize = self.members.len();
        let first: &BakedWindMap = &self.members[0];
        let mut grid: Vec<Wind> = Vec::new();
        let mut p: usize = 0;
        while p < first.grid.len()
            invariant
                p <= first.grid@.len(),
                self.members@.len() == count,
                count > 0,
                *first == self.members@[0],
                self.aligned(),
                given::settled2(*plus),
                given::settled2(*share),
                grid@.len() == p,
                forall|q: int|
                    0 <= q < p ==> #[trigger] grid@[q] == given::gives2(
                        *share,
                        total(self.members@, q, count as int, *plus),
                        count,
                    ),
            decreases first.grid@.len() - p,
        {
            let mut sum: Wind = Wind { east_mps: Real { bits: 0 }, north_mps: Real { bits: 0 } };
            let mut k: usize = 0;
            while k < count
                invariant
                    k <= count,
                    p < first.grid@.len(),
                    self.members@.len() == count,
                    *first == self.members@[0],
                    self.aligned(),
                    given::settled2(*plus),
                    sum == total(self.members@, p as int, k as int, *plus),
                decreases count - k,
            {
                assert(self.members@[k as int].wf());
                assert(self.members@[0].wf());
                sum = plus(sum, self.members[k].grid[p]);
                k += 1;
            }
            grid.push(share(sum, count));
            p += 1;
        }
        assert(self.members@[0].wf());
        BakedWindMap {
            grid,
            nx: first.nx,
            ny: first.ny,
            nt: first.nt,
            x_min: first.x_min,
            y_min: first.y_min,
            step: first.step,
            t_step_seconds: first.t_step_seconds,
            crossfade_seconds: first.crossfade_seconds,
            coord_scale: first.coord_scale,
        }
    }
}


/// Bytes come before others where, at the first place at which the two differ, theirs is the
/// lesser, or where they end there.
pub proof fn law_dictionary_order(a: Seq<u8>, b: Seq<u8>, k: int)
    requires
        0 <= k <= a.len(),
        k <= b.len(),
        forall|i: int| 0 <= i < k ==> a[i] == b[i],
        k < a.len() && k < b.len() ==> a[k] != b[k],
    ensures
        before(a, b) <==> k < b.len() && (k == a.len() || a[k] < b[k]),
    decreases k,
{
    if k > 0 {
        let (c, d) = (a.skip(1), b.skip(1));
        assert forall|i: int| 0 <= i < k - 1 implies c[i] == d[i] by {
            assert(a[i + 1] == b[i + 1]);
        }
        law_dictionary_order(c, d, k - 1);
        assert(a[0] == b[0]);
    }
}

/// A file holds a member where its name is `gec` or `gep`, then at least two digits, then
/// `.wcav`, and nothing else.
pub proof fn law_files_that_hold_members(name: Seq<char>)
    ensures
        ({
            let b = encode_utf8(name);
            let n = b.len() as int;
            is_member(name) <==> {
                &&& n >= 10
                &&& b[0] == 0x67 && b[1] == 0x65 && (b[2] == 0x63 || b[2] == 0x70)
                &&& forall|k: int| 3 <= k < n - 5 ==> 48 <= #[trigger] b[k] <= 57
                &&& b[n - 5] == 0x2E && b[n - 4] == 0x77 && b[n - 3] == 0x63 && b[n - 2] == 0x61
                    && b[n - 1] == 0x76
            }
        }),
{
    reveal_strlit("gec");
    reveal_strlit("gep");
    reveal_strlit("wcav");
    is_ascii_chars_encode_utf8("gec"@);
    is_ascii_chars_encode_utf8("gep"@);
    is_ascii_chars_encode_utf8("wcav"@);
    let (c, p, w) = (encode_utf8("gec"@), encode_utf8("gep"@), encode_utf8("wcav"@));
    assert(c[0] == "gec"@[0] as u8 && c[1] == "gec"@[1] as u8 && c[2] == "gec"@[2] as u8);
    assert(p[0] == "gep"@[0] as u8 && p[1] == "gep"@[1] as u8 && p[2] == "gep"@[2] as u8);
    assert(w[0] == "wcav"@[0] as u8 && w[1] == "wcav"@[1] as u8 && w[2] == "wcav"@[2] as u8 && w[3]
        == "wcav"@[3] as u8);
    let b = encode_utf8(name);
    let n = b.len() as int;
    if is_member(name) {
        let stem = paths::stem(b);
        paths::law_stem_and_extension(b);
        assert(b == stem + seq![46u8] + w);
        let m = stem.len() as int;
        assert(n == m + 5);
        assert(b[n - 5] == 46 && b[n - 4] == w[0] && b[n - 3] == w[1] && b[n - 2] == w[2] && b[n - 1]
            == w[3]);
        let t = stem.take(3);
        assert(t[0] == b[0] && t[1] == b[1] && t[2] == b[2]);
        assert forall|k: int| 3 <= k < n - 5 implies 48 <= #[trigger] b[k] <= 57 by {
            assert(b[k] == stem[k]);
        }
    }
    if {
        &&& n >= 10
        &&& b[0] == 0x67 && b[1] == 0x65 && (b[2] == 0x63 || b[2] == 0x70)
        &&& forall|k: int| 3 <= k < n - 5 ==> 48 <= #[trigger] b[k] <= 57
        &&& b[n - 5] == 0x2E && b[n - 4] == 0x77 && b[n - 3] == 0x63 && b[n - 2] == 0x61 && b[n - 1]
            == 0x76
    } {
        let stem = b.take(n - 5);
        assert(b.skip(n - 4) =~= w);
        assert(b =~= stem + seq![46u8] + w);
        assert forall|k: int| 0 <= k < b.len() implies b[k] != 47 by {
            if 3 <= k < n - 5 {
                assert(48 <= b[k] <= 57);
            }
        }
        paths::law_name_is_behind_the_last_slash(Seq::empty(), b);
        assert(paths::file_name(b) == b);
        paths::law_extension_is_behind_the_last_dot(b, stem, w);
        assert(paths::stem(b) == stem);
        if b[2] == 0x63 {
            assert(stem.take(3) =~= c);
        } else {
            assert(stem.take(3) =~= p);
        }
        assert forall|k: int| 3 <= k < stem.len() implies 48 <= #[trigger] stem[k] <= 57 by {
            assert(stem[k] == b[k]);
        }
    }
}

/// The mean of an ensemble at a place is the sum that its members come to there, one after
/// another from calm on, shared among as many as there are.
pub proof fn law_mean_shares_the_sum<P: Fn(Wind, Wind) -> Wind, D: Fn(Wind, usize) -> Wind>(
    mean: BakedWindMap,
    e: BakedEnsembleWindMap,
    plus: P,
    share: D,
    p: int,
    sums: Seq<Wind>,
)
    requires
        crate::search::is_mean(mean, e, plus, share),
        0 <= p < mean.grid@.len(),
        sums.len() == e.members@.len() + 1,
        sums[0].east_mps.bits == 0 && sums[0].north_mps.bits == 0,
        forall|k: int|
            0 <= k < e.members@.len() ==> #[trigger] sums[k + 1] == given::gives2(
                plus,
                sums[k],
                e.members@[k].grid@[p],
            ),
    ensures
        mean.grid@[p] == given::gives2(
            share,
            sums[e.members@.len() as int],
            e.members@.len() as usize,
        ),
{
    law_sum_takes_each_member_at_the_place(e.members@, p, e.members@.len() as int, plus, sums);
}

/// Of two different runs of bytes one comes before the other.
proof fn lemma_one_comes_before(a: Seq<u8>, b: Seq<u8>)
    ensures
        a == b || before(a, b) || before(b, a),
    decreases a.len(),
{
    if a.len() > 0 && b.len() > 0 && a[0] == b[0] {
        lemma_one_comes_before(a.skip(1), b.skip(1));
        if a.skip(1) == b.skip(1) {
            assert(a =~= seq![a[0]] + a.skip(1));
            assert(b =~= seq![b[0]] + b.skip(1));
        }
    } else if a.len() == 0 && b.len() == 0 {
        assert(a =~= b);
    }
}

/// Names in order rise from the first to the last, where they are not the same.
pub proof fn law_names_rise(names: Seq<Seq<char>>, i: int, j: int)
    requires
        in_order(names),
        0 <= i < j < names.len(),
    ensures
        names[i] == names[j] || before(encode_utf8(names[i]), encode_utf8(names[j])),
{
    lemma_one_comes_before(encode_utf8(names[i]), encode_utf8(names[j]));
    assert(!before(encode_utf8(names[j]), encode_utf8(names[i])));
    encode_utf8_decode_utf8(names[i]);
    encode_utf8_decode_utf8(names[j]);
}

/// A member is on the grid of the first where it has as many columns, rows and times, and begins,
/// steps and lasts as that one does.
pub proof fn law_members_on_one_grid(e: BakedEnsembleWindMap, k: int)
    requires
        e.aligned(),
        0 <= k < e.members@.len(),
    ensures
        e.members@[k].nx == e.members@[0].nx,
        e.members@[k].ny == e.members@[0].ny,
        e.members@[k].nt == e.members@[0].nt,
        k > 0 ==> e.members@[k].x_min.equals(e.members@[0].x_min) && e.members@[k].y_min.equals(
            e.members@[0].y_min,
        ) && e.members@[k].step.equals(e.members@[0].step) && e.members@[k].t_step_seconds.equals(
            e.members@[0].t_step_seconds,
        ),
        e.members@[k].grid@.len() == e.members@[0].grid@.len(),
{
    assert(e.members@[k].wf());
    assert(e.members@[0].wf());
}

/// Whether two words are alike up to place `k`, where the first ends or has the lesser byte.
pub open spec fn part_at(a: Seq<u8>, b: Seq<u8>, k: int) -> bool {
    &&& 0 <= k <= a.len()
    &&& k < b.len()
    &&& forall|i: int| 0 <= i < k ==> #[trigger] a[i] == b[i]
    &&& k == a.len() || a[k] < b[k]
}

/// Words come in the order of a dictionary: one is before another just if it ends, or has the
/// lesser byte, at the first place where they part.
pub proof fn law_words_come_as_in_a_dictionary(a: Seq<u8>, b: Seq<u8>)
    ensures
        before(a, b) <==> exists|k: int| part_at(a, b, k),
    decreases b.len(),
{
    if b.len() > 0 && a.len() > 0 && a[0] == b[0] {
        let c = a.skip(1);
        let d = b.skip(1);
        law_words_come_as_in_a_dictionary(c, d);
        if before(a, b) {
            let k = choose|k: int| part_at(c, d, k);
            assert forall|i: int| 0 <= i < k + 1 implies #[trigger] a[i] == b[i] by {
                if i > 0 {
                    assert(c[i - 1] == d[i - 1]);
                }
            }
            assert(part_at(a, b, k + 1));
        }
        if exists|k: int| part_at(a, b, k) {
            let k = choose|k: int| part_at(a, b, k);
            assert(k > 0);
            assert forall|i: int| 0 <= i < k - 1 implies #[trigger] c[i] == d[i] by {
                assert(a[i + 1] == b[i + 1]);
            }
            assert(part_at(c, d, k - 1));
        }
    } else if b.len() > 0 && before(a, b) {
        assert(part_at(a, b, 0));
    } else if b.len() > 0 {
        assert forall|k: int| !part_at(a, b, k) by {
            if part_at(a, b, k) {
                if k > 0 {
                    assert(a[0] == b[0]);
                }
            }
        }
    }
}

} // verus!
