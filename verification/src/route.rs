//! Routes: how many waypoints they have, and how the best of a swarm is found,
//! shown and edited.
use crate::given;
use crate::number::Real;
use crate::text;
use vstd::prelude::*;
use vstd::string::*;

verus! {

/// Number of waypoints of a route, endpoints counted.
#[derive(Clone, Copy, Debug, PartialEq, Eq, Structural)]
pub enum WaypointCount {
    /// 5-waypoint path.
    N5,
    /// 8-waypoint path.
    N8,
    /// 10-waypoint path.
    N10,
    /// 15-waypoint path.
    N15,
    /// 20-waypoint path.
    N20,
    /// 30-waypoint path, the default.
    N30,
    /// 40-waypoint path.
    N40,
    /// 50-waypoint path.
    N50,
    /// 60-waypoint path.
    N60,
}

impl WaypointCount {
    /// Every variant, in ascending order of its count.
    pub const ALL: [WaypointCount; 9] = [
        WaypointCount::N5,
        WaypointCount::N8,
        WaypointCount::N10,
        WaypointCount::N15,
        WaypointCount::N20,
        WaypointCount::N30,
        WaypointCount::N40,
        WaypointCount::N50,
        WaypointCount::N60,
    ];

    /// The count that a variant stands for.
    pub open spec fn count(self) -> nat {
        match self {
            WaypointCount::N5 => 5,
            WaypointCount::N8 => 8,
            WaypointCount::N10 => 10,
            WaypointCount::N15 => 15,
            WaypointCount::N20 => 20,
            WaypointCount::N30 => 30,
            WaypointCount::N40 => 40,
            WaypointCount::N50 => 50,
            WaypointCount::N60 => 60,
        }
    }

    /// The waypoint count as a number.
    pub fn as_usize(self) -> (n: usize)
        ensures
            n == self.count(),
    {
        match self {
            WaypointCount::N5 => 5,
            WaypointCount::N8 => 8,
            WaypointCount::N10 => 10,
            WaypointCount::N15 => 15,
            WaypointCount::N20 => 20,
            WaypointCount::N30 => 30,
            WaypointCount::N40 => 40,
            WaypointCount::N50 => 50,
            WaypointCount::N60 => 60,
        }
    }

    /// The variant with `n` waypoints, or `None` where no variant has that many.
    pub fn from_usize(n: usize) -> (found: Option<WaypointCount>)
        ensures
            found matches Some(wc) ==> wc.count() == n,
            found is None ==> forall|wc: WaypointCount| wc.count() != n,
    {
        match n {
            5 => Some(WaypointCount::N5),
            8 => Some(WaypointCount::N8),
            10 => Some(WaypointCount::N10),
            15 => Some(WaypointCount::N15),
            20 => Some(WaypointCount::N20),
            30 => Some(WaypointCount::N30),
            40 => Some(WaypointCount::N40),
            50 => Some(WaypointCount::N50),
            60 => Some(WaypointCount::N60),
            _ => None,
        }
    }
}

/// No two variants have the same count.
pub proof fn law_counts_tell_apart(a: WaypointCount, b: WaypointCount)
    ensures
        a.count() == b.count() ==> a == b,
{
}

impl Default for WaypointCount {
    fn default() -> (wc: Self)
        ensures
            wc == WaypointCount::N30,
    {
        WaypointCount::N30
    }
}

/// The shortest way by sea with the best timing: what a search is held against.
#[derive(Clone, Debug)]
pub struct BenchmarkRoute {
    /// Longitude and latitude of each waypoint.
    pub waypoints: Vec<(Real, Real)>,
    /// Seconds of travel.
    pub total_time: Real,
    /// Kilograms of fuel.
    pub total_fuel: Real,
    /// Metres over land; above 0 only where the way crosses land.
    pub total_land_metres: Real,
    /// How good it is, by the same weights as the search.
    pub fitness: Real,
}

/// The best path that a particle has found.
#[derive(Debug)]
pub struct Particle {
    /// Longitude of each waypoint in degrees.
    pub xs: Vec<Real>,
    /// Latitude of each waypoint in degrees.
    pub ys: Vec<Real>,
    /// Seconds for each waypoint.
    pub ts: Vec<Real>,
    /// How good it is; higher is better.
    pub best_fit: Real,
}

/// A path and how good it is.
pub struct Found {
    pub xs: Seq<Real>,
    pub ys: Seq<Real>,
    pub ts: Seq<Real>,
    pub best_fit: Real,
}

impl View for Particle {
    type V = Found;

    open spec fn view(&self) -> Found {
        Found { xs: self.xs@, ys: self.ys@, ts: self.ts@, best_fit: self.best_fit }
    }
}

impl Found {
    /// Whether it has `n` waypoints.
    pub open spec fn has(self, n: nat) -> bool {
        self.xs.len() == n && self.ys.len() == n && self.ts.len() == n
    }
}

/// Which of several is the best: the one that is greatest, the last of those where
/// there are more. A NaN is held to be as good as whatever it is held against.
pub open spec fn best_of(found: Seq<Found>) -> int
    decreases found.len(),
{
    if found.len() <= 1 {
        0
    } else {
        let earlier = best_of(found.drop_last());
        if found.last().best_fit.below(found[earlier].best_fit) {
            earlier
        } else {
            found.len() - 1
        }
    }
}

/// The best of several is one of them.
proof fn lemma_best_of(found: Seq<Found>)
    requires
        found.len() > 0,
    ensures
        0 <= best_of(found) < found.len(),
    decreases found.len(),
{
    if found.len() > 1 {
        lemma_best_of(found.drop_last());
    }
}

/// None is better than the best, and all after it are worse.
pub proof fn law_best_is_the_last_greatest(found: Seq<Found>)
    requires
        found.len() > 0,
        forall|i: int| 0 <= i < found.len() ==> !(#[trigger] found[i]).best_fit.nan(),
    ensures
        0 <= best_of(found) < found.len(),
        forall|i: int|
            0 <= i < found.len() ==> (#[trigger] found[i]).best_fit.at_most(
                found[best_of(found)].best_fit,
            ),
        forall|i: int|
            best_of(found) < i < found.len() ==> (#[trigger] found[i]).best_fit.below(
                found[best_of(found)].best_fit,
            ),
    decreases found.len(),
{
    lemma_best_of(found);
    if found.len() > 1 {
        let shorter = found.drop_last();
        assert forall|i: int| 0 <= i < shorter.len() implies !(
        #[trigger] shorter[i]).best_fit.nan() by {
            assert(shorter[i] == found[i]);
        }
        law_best_is_the_last_greatest(shorter);
        assert(shorter[best_of(shorter)] == found[best_of(shorter)]);
        assert forall|i: int| 0 <= i < found.len() implies (#[trigger] found[i]).best_fit.at_most(
            found[best_of(found)].best_fit,
        ) by {
            if i < found.len() - 1 {
                assert(shorter[i] == found[i]);
            }
        }
        assert forall|i: int| best_of(found) < i < found.len() implies (
        #[trigger] found[i]).best_fit.below(found[best_of(found)].best_fit) by {
            if i < found.len() - 1 {
                assert(shorter[i] == found[i]);
            }
        }
    }
}

/// What a search found: the particles after each iteration.
#[derive(Debug)]
pub struct RouteEvolution {
    count: WaypointCount,
    frames: Vec<Vec<Particle>>,
}

/// What a frame holds.
pub open spec fn found_in(frame: Seq<Particle>) -> Seq<Found> {
    Seq::new(frame.len(), |j: int| frame[j]@)
}

/// What frames hold.
pub open spec fn found_by(frames: Seq<Vec<Particle>>) -> Seq<Seq<Found>> {
    Seq::new(frames.len(), |i: int| found_in(frames[i]@))
}

/// A path as a reader sees it.
pub struct GbestView<'a> {
    /// Longitude of each waypoint in degrees.
    pub xs: &'a [Real],
    /// Latitude of each waypoint in degrees.
    pub ys: &'a [Real],
    /// Seconds for each waypoint.
    pub ts: &'a [Real],
    /// How good it is; higher is better.
    pub best_fit: Real,
}

impl<'a> View for GbestView<'a> {
    type V = Found;

    open spec fn view(&self) -> Found {
        Found { xs: self.xs@, ys: self.ys@, ts: self.ts@, best_fit: self.best_fit }
    }
}

/// A path as a writer sees it.
pub struct GbestViewMut<'a> {
    /// Longitude of each waypoint in degrees.
    pub xs: &'a mut [Real],
    /// Latitude of each waypoint in degrees.
    pub ys: &'a mut [Real],
    /// Seconds for each waypoint.
    pub ts: &'a mut [Real],
}

/// Where the best path of an iteration is: the iteration counts as the last where
/// there are not so many. `None` where that iteration has no particle.
pub open spec fn gbest_place(found: Seq<Seq<Found>>, iter: int) -> Option<(int, int)> {
    let i = if iter < found.len() {
        iter
    } else {
        found.len() - 1
    };
    if found.len() == 0 || found[i].len() == 0 {
        None
    } else {
        Some((i, best_of(found[i])))
    }
}

/// The path at a place.
pub open spec fn path_at(found: Seq<Seq<Found>>, place: (int, int)) -> Found {
    found[place.0][place.1]
}

/// `found` with another path at a place.
pub open spec fn with_path(found: Seq<Seq<Found>>, place: (int, int), path: Found) -> Seq<
    Seq<Found>,
> {
    found.update(place.0, found[place.0].update(place.1, path))
}

impl RouteEvolution {
    /// What the particles have found after each iteration.
    pub closed spec fn found(&self) -> Seq<Seq<Found>> {
        found_by(self.frames@)
    }

    /// How many waypoints every path has.
    pub closed spec fn waypoints(&self) -> WaypointCount {
        self.count
    }

    /// Whether every path has as many waypoints as it should.
    pub open spec fn wf(&self) -> bool {
        forall|i: int, j: int|
            0 <= i < self.found().len() && 0 <= j < self.found()[i].len() ==> (#[trigger] self.found()[i][j]).has(
                self.waypoints().count(),
            )
    }

    /// An evolution of the given frames.
    pub fn from_frames(count: WaypointCount, frames: Vec<Vec<Particle>>) -> (e: RouteEvolution)
        requires
            forall|i: int, j: int|
                0 <= i < frames@.len() && 0 <= j < frames@[i]@.len() ==> (
                #[trigger] frames@[i]@[j])@.has(count.count()),
        ensures
            e.wf(),
            e.waypoints() == count,
            e.found() == found_by(frames@),
    {
        RouteEvolution { count, frames }
    }

    /// How many waypoints every path has.
    pub fn waypoint_count(&self) -> (n: WaypointCount)
        ensures
            n == self.waypoints(),
    {
        self.count
    }

    /// How many iterations there are.
    pub fn iter_count(&self) -> (n: usize)
        ensures
            n == self.found().len(),
    {
        self.frames.len()
    }

    /// Where the best path of an iteration is.
    fn find_gbest(&self, iter: usize) -> (place: Option<(usize, usize)>)
        ensures
            place is Some <==> gbest_place(self.found(), iter as int) is Some,
            place matches Some((i, j)) ==> gbest_place(self.found(), iter as int) == Some(
                (i as int, j as int),
            ) && i < self.frames@.len() && j < self.frames@[i as int]@.len(),
    {
        let n: usize = self.frames.len();
        if n == 0 {
            return None;
        }
        let i: usize = if iter < n { iter } else { n - 1 };
        let frame = &self.frames[i];
        let ghost found = found_in(frame@);
        assert(found == self.found()[i as int]);
        if frame.len() == 0 {
            return None;
        }
        let mut best: usize = 0;
        let mut j: usize = 1;
        assert(best_of(found.take(1)) == 0);
        while j < frame.len()
            invariant
                1 <= j <= frame@.len(),
                best < j,
                found == found_in(frame@),
                best == best_of(found.take(j as int)),
            decreases frame@.len() - j,
        {
            assert(found.take(j + 1).drop_last() =~= found.take(j as int));
            if !frame[j].best_fit.lt(frame[best].best_fit) {
                best = j;
            }
            j += 1;
        }
        assert(found.take(j as int) =~= found);
        Some((i, best))
    }

    /// The best path of iteration `iter`, or of the last where there are not so many.
    /// `None` where that iteration has no particle.
    pub fn gbest_at(&self, iter: usize) -> (v: Option<GbestView<'_>>)
        ensures
            v is Some <==> gbest_place(self.found(), iter as int) is Some,
            v matches Some(g) ==> g@ == path_at(self.found(), gbest_place(self.found(), iter as int)->0),
    {
        match self.find_gbest(iter) {
            None => None,
            Some((i, j)) => {
                let p = &self.frames[i][j];
                Some(
                    GbestView {
                        xs: p.xs.as_slice(),
                        ys: p.ys.as_slice(),
                        ts: p.ts.as_slice(),
                        best_fit: p.best_fit,
                    },
                )
            },
        }
    }

    /// The best path of iteration `iter`, or of the last where there are not so many,
    /// to be written to. How good it is stays as it was found. `None` where that
    /// iteration has no particle.
    pub fn gbest_at_mut(&mut self, iter: usize) -> (v: Option<GbestViewMut<'_>>)
        ensures
            final(self).waypoints() == old(self).waypoints(),
            match gbest_place(old(self).found(), iter as int) {
                None => v is None && final(self).found() == old(self).found(),
                Some(place) => v matches Some(g) && {
                    let path = path_at(old(self).found(), place);
                    &&& g.xs@ == path.xs
                    &&& g.ys@ == path.ys
                    &&& g.ts@ == path.ts
                    &&& final(self).found() == with_path(
                        old(self).found(),
                        place,
                        (Found {
                            xs: final(g.xs)@,
                            ys: final(g.ys)@,
                            ts: final(g.ts)@,
                            best_fit: path.best_fit,
                        }),
                    )
                },
            },
    {
        match self.find_gbest(iter) {
            None => None,
            Some((i, j)) => {
                let ghost was = self.found();
                let ghost later = final(self).found();
                let p: &mut Particle = &mut self.frames[i][j];
                let xs = p.xs.as_mut_slice();
                let ys = p.ys.as_mut_slice();
                let ts = p.ts.as_mut_slice();
                proof {
                    let place = (i as int, j as int);
                    let path = Found {
                        xs: final(xs)@,
                        ys: final(ys)@,
                        ts: final(ts)@,
                        best_fit: was[place.0][place.1].best_fit,
                    };
                    assert(later[place.0][place.1] == path);
                    assert(later[place.0] =~= was[place.0].update(place.1, path));
                    assert(later =~= with_path(was, place, path));
                }
                Some(GbestViewMut { xs, ys, ts })
            },
        }
    }

    /// Moves waypoint `idx` of the best path of an iteration by `dx` and `dy`; `plus`
    /// adds. Nothing changes where there is no such waypoint. How good the path is
    /// stays as it was found.
    pub fn mutate_waypoint<F: Fn(Real, Real) -> Real>(
        &mut self,
        iter: usize,
        idx: usize,
        dx: Real,
        dy: Real,
        plus: &F,
    )
        requires
            old(self).wf(),
            given::settled2(*plus),
        ensures
            final(self).wf(),
            final(self).waypoints() == old(self).waypoints(),
            gbest_place(old(self).found(), iter as int) is None || idx >= old(self).waypoints().count()
                ==> final(self).found() == old(self).found(),
            gbest_place(old(self).found(), iter as int) matches Some(place) ==> idx < old(
                self,
            ).waypoints().count() ==> final(self).found() == with_path(
                old(self).found(),
                place,
                moved(path_at(old(self).found(), place), idx as int, dx, dy, *plus),
            ),
    {
        if let Some((i, j)) = self.find_gbest(iter) {
            let ghost was = self.found();
            assert(was[i as int][j as int].has(self.count.count()));
            if idx < self.frames[i][j].xs.len() {
                let x = plus(self.frames[i][j].xs[idx], dx);
                let y = plus(self.frames[i][j].ys[idx], dy);
                self.frames[i][j].xs[idx] = x;
                self.frames[i][j].ys[idx] = y;
                proof {
                    let place = (i as int, j as int);
                    let path = moved(was[place.0][place.1], idx as int, dx, dy, *plus);
                    assert(self.found()[place.0][place.1] == path);
                    assert(self.found()[place.0] =~= was[place.0].update(place.1, path));
                    assert(self.found() =~= with_path(was, place, path));
                }
            }
        }
    }

    /// Gives the best path of an iteration other times. Nothing changes where there
    /// are not as many as it has waypoints.
    pub fn apply_reopt_times(&mut self, iter: usize, new_times: &[Real])
        requires
            old(self).wf(),
        ensures
            final(self).wf(),
            final(self).waypoints() == old(self).waypoints(),
            gbest_place(old(self).found(), iter as int) is None || new_times@.len() != old(
                self,
            ).waypoints().count() ==> final(self).found() == old(self).found(),
            gbest_place(old(self).found(), iter as int) matches Some(place) ==> new_times@.len() == old(
                self,
            ).waypoints().count() ==> final(self).found() == with_path(
                old(self).found(),
                place,
                Found { ts: new_times@, ..path_at(old(self).found(), place) },
            ),
    {
        if let Some((i, j)) = self.find_gbest(iter) {
            let ghost was = self.found();
            assert(was[i as int][j as int].has(self.count.count()));
            if self.frames[i][j].ts.len() == new_times.len() {
                let times: Vec<Real> = copied(new_times);
                self.frames[i][j].ts = times;
                proof {
                    let place = (i as int, j as int);
                    let path = Found { ts: new_times@, ..was[place.0][place.1] };
                    assert(self.found()[place.0][place.1] == path);
                    assert(self.found()[place.0] =~= was[place.0].update(place.1, path));
                    assert(self.found() =~= with_path(was, place, path));
                }
            }
        }
    }
}

/// A path with one waypoint moved.
pub open spec fn moved<F: Fn(Real, Real) -> Real>(
    path: Found,
    idx: int,
    dx: Real,
    dy: Real,
    plus: F,
) -> Found {
    Found {
        xs: path.xs.update(idx, given::gives2(plus, path.xs[idx], dx)),
        ys: path.ys.update(idx, given::gives2(plus, path.ys[idx], dy)),
        ..path
    }
}

/// The same numbers again.
pub fn copied(numbers: &[Real]) -> (copy: Vec<Real>)
    ensures
        copy@ == numbers@,
{
    let mut copy: Vec<Real> = Vec::new();
    let mut i: usize = 0;
    while i < numbers.len()
        invariant
            i <= numbers@.len(),
            copy@ == numbers@.take(i as int),
        decreases numbers@.len() - i,
    {
        copy.push(numbers[i]);
        assert(numbers@.take(i + 1) =~= numbers@.take(i as int).push(numbers@[i as int]));
        i += 1;
    }
    assert(numbers@.take(i as int) =~= numbers@);
    copy
}

/// The best path stays the best when its waypoints or times are changed: what is
/// changed and what is shown are the same path.
pub proof fn law_edits_keep_the_best(found: Seq<Seq<Found>>, iter: int, path: Found)
    requires
        0 <= iter,
        gbest_place(found, iter) is Some,
        path.best_fit == path_at(found, gbest_place(found, iter)->0).best_fit,
    ensures
        gbest_place(with_path(found, gbest_place(found, iter)->0, path), iter) == gbest_place(
            found,
            iter,
        ),
{
    let place = gbest_place(found, iter)->0;
    let row = found[place.0];
    lemma_best_of(row);
    lemma_best_by_fit(row, row.update(place.1, path));
}

/// Which is the best depends only on how good they are.
proof fn lemma_best_by_fit(a: Seq<Found>, b: Seq<Found>)
    requires
        a.len() == b.len(),
        forall|i: int| 0 <= i < a.len() ==> (#[trigger] a[i]).best_fit == b[i].best_fit,
    ensures
        best_of(a) == best_of(b),
    decreases a.len(),
{
    if a.len() > 1 {
        let (c, d) = (a.drop_last(), b.drop_last());
        assert forall|i: int| 0 <= i < c.len() implies (#[trigger] c[i]).best_fit
            == d[i].best_fit by {
            assert(c[i] == a[i]);
        }
        lemma_best_by_fit(c, d);
        lemma_best_of(c);
        assert(a[best_of(c)].best_fit == b[best_of(c)].best_fit);
        assert(a.last() == a[a.len() - 1]);
    }
}

/// Whether no number is NaN.
pub open spec fn no_nan(s: Seq<Real>) -> bool {
    forall|i: int| 0 <= i < s.len() ==> !(#[trigger] s[i]).nan()
}

/// Whether the number at `i` is the first NaN.
pub open spec fn first_nan(s: Seq<Real>, i: int) -> bool {
    &&& 0 <= i < s.len()
    &&& s[i].nan()
    &&& forall|j: int| 0 <= j < i ==> !(#[trigger] s[j]).nan()
}

/// Where a NaN is, in words.
pub open spec fn nan_words(context: Seq<char>, axis: Seq<char>, i: int) -> Seq<char> {
    "NaN in "@ + context + ": "@ + axis + "["@ + text::decimal(i as nat) + "]"@
}

/// Whether the words tell of the first NaN along an axis.
pub open spec fn tells_axis(s: Seq<Real>, context: Seq<char>, axis: Seq<char>, words: Seq<char>) -> bool {
    exists|i: int| #[trigger] first_nan(s, i) && words == nan_words(context, axis, i)
}

impl Found {
    /// Whether no waypoint has a NaN.
    pub open spec fn sound(self) -> bool {
        no_nan(self.xs) && no_nan(self.ys) && no_nan(self.ts)
    }

    /// Whether the words tell of the first NaN among the waypoints: longitudes are
    /// looked at first, then latitudes, then times.
    pub open spec fn tells_nan(self, context: Seq<char>, words: Seq<char>) -> bool {
        if !no_nan(self.xs) {
            tells_axis(self.xs, context, "x"@, words)
        } else if !no_nan(self.ys) {
            tells_axis(self.ys, context, "y"@, words)
        } else {
            tells_axis(self.ts, context, "t"@, words)
        }
    }
}

/// The first NaN along an axis, in words.
fn axis_nan(s: &[Real], context: &str, axis: &str) -> (words: Option<String>)
    ensures
        words is None <==> no_nan(s@),
        words matches Some(w) ==> tells_axis(s@, context@, axis@, w@),
{
    let mut i: usize = 0;
    while i < s.len()
        invariant
            i <= s@.len(),
            forall|j: int| 0 <= j < i ==> !(#[trigger] s@[j]).nan(),
        decreases s@.len() - i,
    {
        if s[i].is_nan() {
            let mut words: String = "NaN in ".to_owned();
            words.append(context);
            words.append(": ");
            words.append(axis);
            words.append("[");
            text::push_decimal(&mut words, i as u64);
            words.append("]");
            assert(first_nan(s@, i as int));
            assert(tells_axis(s@, context@, axis@, words@));
            return Some(words);
        }
        i += 1;
    }
    None
}

impl Particle {
    /// The first NaN among the waypoints, in words that name `context`.
    pub fn path_nan(&self, context: &str) -> (words: Option<String>)
        ensures
            words is None <==> self@.sound(),
            words matches Some(w) ==> self@.tells_nan(context@, w@),
    {
        let x = axis_nan(self.xs.as_slice(), context, "x");
        if x.is_some() {
            return x;
        }
        let y = axis_nan(self.ys.as_slice(), context, "y");
        if y.is_some() {
            return y;
        }
        axis_nan(self.ts.as_slice(), context, "t")
    }
}

/// Particle `j` of iteration `i`, in words.
pub open spec fn particle_words(i: int, j: int) -> Seq<char> {
    "evolution["@ + text::decimal(i as nat) + "]["@ + text::decimal(j as nat) + "]"@
}

/// Whether a particle is without a NaN.
pub open spec fn clean(f: Found) -> bool {
    !f.best_fit.nan() && f.sound()
}

/// Whether particle `j` of iteration `i` is the first that has a NaN, and the words
/// tell of its first: how good it is is looked at before its waypoints.
pub open spec fn tells_particle(found: Seq<Seq<Found>>, i: int, j: int, words: Seq<char>) -> bool {
    &&& 0 <= i < found.len()
    &&& 0 <= j < found[i].len()
    &&& !clean(found[i][j])
    &&& forall|a: int, b: int|
        0 <= a < found.len() && 0 <= b < found[a].len() && (a < i || (a == i && b < j)) ==> clean(
            #[trigger] found[a][b],
        )
    &&& if found[i][j].best_fit.nan() {
        words == "NaN in "@ + particle_words(i, j) + ": best_fit"@
    } else {
        found[i][j].tells_nan(particle_words(i, j) + ".best_pos"@, words)
    }
}

/// Whether the words tell of the first NaN of all.
pub open spec fn tells_first(found: Seq<Seq<Found>>, words: Seq<char>) -> bool {
    exists|i: int, j: int| #[trigger] tells_particle(found, i, j, words)
}

impl RouteEvolution {
    /// The first NaN of all, in words.
    pub fn find_nan(&self) -> (words: Option<String>)
        ensures
            words is None <==> forall|i: int, j: int|
                0 <= i < self.found().len() && 0 <= j < self.found()[i].len() ==> clean(#[trigger] self.found()[i][j]),
            words matches Some(w) ==> tells_first(self.found(), w@),
    {
        let mut i: usize = 0;
        while i < self.frames.len()
            invariant
                i <= self.frames@.len(),
                forall|a: int, b: int|
                    0 <= a < i && 0 <= b < self.found()[a].len() ==> clean(#[trigger] self.found()[a][b]),
            decreases self.frames@.len() - i,
        {
            let mut j: usize = 0;
            while j < self.frames[i].len()
                invariant
                    i < self.frames@.len(),
                    j <= self.frames@[i as int]@.len(),
                    forall|a: int, b: int|
                        0 <= a < self.found().len() && 0 <= b < self.found()[a].len() && (a < i || (a == i && b
                            < j)) ==> clean(#[trigger] self.found()[a][b]),
                decreases self.frames@[i as int]@.len() - j,
            {
                let p = &self.frames[i][j];
                assert(p@ == self.found()[i as int][j as int]);
                let mut context: String = "evolution[".to_owned();
                text::push_decimal(&mut context, i as u64);
                context.append("][");
                text::push_decimal(&mut context, j as u64);
                context.append("]");
                if p.best_fit.is_nan() {
                    let mut told: String = "NaN in ".to_owned();
                    told.append(context.as_str());
                    told.append(": best_fit");
                    assert(tells_particle(self.found(), i as int, j as int, told@));
                    assert(tells_first(self.found(), told@));
                    return Some(told);
                }
                context.append(".best_pos");
                let nan = p.path_nan(context.as_str());
                if nan.is_some() {
                    assert(tells_particle(self.found(), i as int, j as int, nan->0@));
                    return nan;
                }
                j += 1;
            }
            i += 1;
        }
        None
    }
}

/// A path has 5, 8, 10, 15, 20, 30, 40, 50 or 60 waypoints, as its name tells.
pub proof fn law_counts_are_as_named(n: nat)
    ensures
        (exists|wc: WaypointCount| #[trigger] wc.count() == n) <==> n == 5 || n == 8 || n == 10 || n == 15
            || n == 20 || n == 30 || n == 40 || n == 50 || n == 60,
        WaypointCount::N5.count() < WaypointCount::N8.count() < WaypointCount::N10.count()
            < WaypointCount::N15.count() < WaypointCount::N20.count() < WaypointCount::N30.count()
            < WaypointCount::N40.count() < WaypointCount::N50.count() < WaypointCount::N60.count(),
{
    assert(WaypointCount::N5.count() == 5 && WaypointCount::N8.count() == 8
        && WaypointCount::N10.count() == 10 && WaypointCount::N15.count() == 15
        && WaypointCount::N20.count() == 20 && WaypointCount::N30.count() == 30
        && WaypointCount::N40.count() == 40 && WaypointCount::N50.count() == 50
        && WaypointCount::N60.count() == 60);
}

/// The best path of an iteration is looked for among its own particles; past the last iteration
/// that one counts. Without particles there is none.
pub proof fn law_best_of_an_iteration(found: Seq<Seq<Found>>, iter: int)
    requires
        iter >= 0,
    ensures
        found.len() == 0 ==> gbest_place(found, iter) is None,
        0 <= iter < found.len() && found[iter].len() == 0 ==> gbest_place(found, iter) is None,
        0 <= iter < found.len() && found[iter].len() > 0 ==> gbest_place(found, iter) == Some(
            (iter, best_of(found[iter])),
        ),
        found.len() > 0 && iter >= found.len() ==> gbest_place(found, iter) == gbest_place(
            found,
            found.len() - 1,
        ),
{
}

/// A changed path takes the place of the one that it was; every other stays.
pub proof fn law_edit_changes_one_path(
    found: Seq<Seq<Found>>,
    place: (int, int),
    path: Found,
    i: int,
    j: int,
)
    requires
        0 <= place.0 < found.len(),
        0 <= place.1 < found[place.0].len(),
        0 <= i < found.len(),
        0 <= j < found[i].len(),
    ensures
        ({
            let after = with_path(found, place, path);
            &&& after.len() == found.len()
            &&& after[i].len() == found[i].len()
            &&& after[i][j] == (if i == place.0 && j == place.1 {
                path
            } else {
                found[i][j]
            })
            &&& path_at(after, place) == path
        }),
{
}

/// Moving a waypoint adds to its longitude and its latitude, and leaves every other waypoint,
/// all times and the fitness as they were.
pub proof fn law_move_changes_one_waypoint<F: Fn(Real, Real) -> Real>(
    path: Found,
    idx: int,
    dx: Real,
    dy: Real,
    plus: F,
    k: int,
)
    requires
        0 <= idx < path.xs.len(),
        path.xs.len() == path.ys.len(),
        0 <= k < path.xs.len(),
    ensures
        ({
            let after = moved(path, idx, dx, dy, plus);
            &&& after.xs.len() == path.xs.len() && after.ys.len() == path.ys.len()
            &&& after.xs[idx] == given::gives2(plus, path.xs[idx], dx)
            &&& after.ys[idx] == given::gives2(plus, path.ys[idx], dy)
            &&& k != idx ==> after.xs[k] == path.xs[k] && after.ys[k] == path.ys[k]
            &&& after.ts == path.ts
            &&& after.best_fit == path.best_fit
        }),
{
}

/// A particle is clean where none of its numbers is NaN.
pub proof fn law_clean_particles(f: Found)
    ensures
        clean(f) <==> !f.best_fit.nan() && (forall|i: int| 0 <= i < f.xs.len() ==> !(#[trigger] f.xs[i]).nan())
            && (forall|i: int| 0 <= i < f.ys.len() ==> !(#[trigger] f.ys[i]).nan()) && (forall|i: int|
            0 <= i < f.ts.len() ==> !(#[trigger] f.ts[i]).nan()),
{
}

/// Paths are seen in the order of iterations and of particles.
pub proof fn law_paths_in_order(frames: Seq<Vec<Particle>>, i: int, j: int)
    requires
        0 <= i < frames.len(),
        0 <= j < frames[i]@.len(),
    ensures
        found_by(frames).len() == frames.len(),
        found_by(frames)[i].len() == frames[i]@.len(),
        found_by(frames)[i][j].xs == frames[i]@[j].xs@,
        found_by(frames)[i][j].ys == frames[i]@[j].ys@,
        found_by(frames)[i][j].ts == frames[i]@[j].ts@,
        found_by(frames)[i][j].best_fit == frames[i]@[j].best_fit,
{
}

/// What is told of an axis is its first NaN, by its place.
pub proof fn law_first_nan_is_told(s: Seq<Real>, context: Seq<char>, axis: Seq<char>, words: Seq<char>)
    requires
        tells_axis(s, context, axis, words),
    ensures
        exists|i: int|
            0 <= i < s.len() && (#[trigger] s[i]).nan() && (forall|j: int|
                0 <= j < i ==> !(#[trigger] s[j]).nan()) && words == "NaN in "@ + context + ": "@ + axis
                + "["@ + text::decimal(i as nat) + "]"@,
{
    let i = choose|i: int| first_nan(s, i) && words == nan_words(context, axis, i);
    assert(s[i].nan());
}

/// Of a path a NaN among the longitudes is told before one among the latitudes, and that before
/// one among the times.
pub proof fn law_longitudes_are_looked_at_first(f: Found, context: Seq<char>, words: Seq<char>, k: int)
    requires
        f.tells_nan(context, words),
        0 <= k,
    ensures
        k < f.xs.len() && f.xs[k].nan() ==> tells_axis(f.xs, context, "x"@, words),
        (forall|i: int| 0 <= i < f.xs.len() ==> !(#[trigger] f.xs[i]).nan()) && k < f.ys.len()
            && f.ys[k].nan() ==> tells_axis(f.ys, context, "y"@, words),
        (forall|i: int| 0 <= i < f.xs.len() ==> !(#[trigger] f.xs[i]).nan()) && (forall|i: int|
            0 <= i < f.ys.len() ==> !(#[trigger] f.ys[i]).nan()) ==> tells_axis(
            f.ts,
            context,
            "t"@,
            words,
        ),
{
}

/// A particle that is told of has a NaN, and no particle of an iteration before it, nor one
/// before it in its own, has any.
pub proof fn law_particles_are_looked_at_in_turn(
    found: Seq<Seq<Found>>,
    i: int,
    j: int,
    words: Seq<char>,
    a: int,
    b: int,
)
    requires
        tells_particle(found, i, j, words),
        0 <= a < found.len(),
        0 <= b < found[a].len(),
        a < i || (a == i && b < j),
    ensures
        !clean(found[i][j]),
        !found[a][b].best_fit.nan(),
        forall|k: int| 0 <= k < found[a][b].xs.len() ==> !(#[trigger] found[a][b].xs[k]).nan(),
        forall|k: int| 0 <= k < found[a][b].ys.len() ==> !(#[trigger] found[a][b].ys[k]).nan(),
        forall|k: int| 0 <= k < found[a][b].ts.len() ==> !(#[trigger] found[a][b].ts[k]).nan(),
{
    assert(clean(found[a][b]));
}

/// Of an evolution only one NaN is told, in one way.
pub proof fn law_one_nan_is_told(found: Seq<Seq<Found>>, v: Seq<char>, w: Seq<char>)
    requires
        tells_first(found, v),
        tells_first(found, w),
    ensures
        v == w,
{
    let (i, j) = choose|i: int, j: int| tells_particle(found, i, j, v);
    let (a, b) = choose|a: int, b: int| tells_particle(found, a, b, w);
    assert(!clean(found[i][j]) && !clean(found[a][b]));
    assert(i == a && j == b);
    let f = found[i][j];
    if !f.best_fit.nan() {
        let s = if !no_nan(f.xs) {
            f.xs
        } else if !no_nan(f.ys) {
            f.ys
        } else {
            f.ts
        };
        let context = particle_words(i, j) + ".best_pos"@;
        let axis = if !no_nan(f.xs) {
            "x"@
        } else if !no_nan(f.ys) {
            "y"@
        } else {
            "t"@
        };
        assert(tells_axis(s, context, axis, v) && tells_axis(s, context, axis, w));
        let m = choose|m: int| first_nan(s, m) && v == nan_words(context, axis, m);
        let n = choose|n: int| first_nan(s, n) && w == nan_words(context, axis, n);
        assert(s[m].nan() && s[n].nan());
        assert(m == n);
    }
}

} // verus!
