//! How a search runs: which winds judge a route, what is reported when, and what
//! comes out of it.
//!
//! A run asks for a benchmark, then for the swarm to be moved, and, where a route is
//! judged by an ensemble, for what the best route costs in the wind of each member.
//! Whoever drives the run does as it asks and tells it what came back.
use crate::bounds;
use crate::config::EnsembleMode;
use crate::ensemble::BakedEnsembleWindMap;
use crate::given;
use crate::metrics::SegmentMetrics;
use crate::number::Real;
use crate::route;
use crate::route::{copied, BenchmarkRoute, Found, Particle, RouteEvolution, WaypointCount};
use crate::wind_map::baked::{BakedWindMap, Wind};
use vstd::prelude::*;
use vstd::string::*;

verus! {

/// The bits of 0.25 degrees, the cell of the wind grid.
pub const BAKE_STEP: u64 = 0x3FD0_0000_0000_0000;

/// Why a search gives no route.
#[derive(Clone, Copy, Debug, PartialEq, Eq, Structural)]
pub enum SearchError {
    /// Every route that was tried has a leg that the boat cannot sail.
    NoFeasibleRoute { best_fit: Real },
}

impl SearchError {
    /// The error in words. `show` writes numbers.
    pub open spec fn words<S: Fn(Real) -> String>(self, show: S) -> Seq<char> {
        match self {
            SearchError::NoFeasibleRoute { best_fit } =>
                "search produced no feasible route (best_fit = "@ + given::words1(show, best_fit)
                + ") — every candidate path had at least one segment the boat can't traverse in the given wind. Try widening the route bounds, relaxing the boat polar, or moving the endpoints out of any pole-locked region."@,
        }
    }

    /// The error in words. `show` writes numbers.
    pub fn message<S: Fn(Real) -> String>(self, show: &S) -> (s: String)
        requires
            given::worded1(*show),
        ensures
            s@ == self.words(*show),
    {
        match self {
            SearchError::NoFeasibleRoute { best_fit } => {
                let mut s: String = "search produced no feasible route (best_fit = ".to_owned();
                s.append(show(best_fit).as_str());
                s.append(
                    ") — every candidate path had at least one segment the boat can't traverse in the given wind. Try widening the route bounds, relaxing the boat polar, or moving the endpoints out of any pole-locked region.",
                );
                s
            },
        }
    }
}

/// What a route is judged by.
#[derive(Clone, Copy, Debug)]
pub struct SearchWeights {
    pub time_weight: Real,
    pub fuel_weight: Real,
    pub land_weight: Real,
}

/// What a search is doing.
#[derive(Clone, Copy, Debug, PartialEq, Eq, Structural)]
pub enum SearchPhase {
    /// Wind maps are read.
    Loading,
    /// Wind maps are resampled.
    Baking,
    /// The benchmark is computed.
    Benchmark,
    /// The swarm is moved.
    RunningPso,
}

impl SearchPhase {
    /// A short text for a status line.
    pub fn label(self) -> (s: &'static str)
        ensures
            s@ == (match self {
                SearchPhase::Loading => "loading wind data…"@,
                SearchPhase::Baking => "baking wind grid…"@,
                SearchPhase::Benchmark => "computing benchmark…"@,
                SearchPhase::RunningPso => "searching…"@,
            }),
    {
        match self {
            SearchPhase::Loading => "loading wind data…",
            SearchPhase::Baking => "baking wind grid…",
            SearchPhase::Benchmark => "computing benchmark…",
            SearchPhase::RunningPso => "searching…",
        }
    }
}

/// What is reported while a search runs.
#[derive(Clone, Debug)]
pub enum SearchProgressEvent {
    /// The search does something else now.
    Phase(SearchPhase),
    /// The benchmark is there.
    BenchmarkReady(BenchmarkRoute),
    /// The swarm was moved once more.
    Iteration {
        /// How often it was moved before.
        iter_idx: usize,
        /// How often it will be moved in all.
        total_iters: usize,
        /// Longitude of each waypoint of the best route so far.
        gbest_xs: Vec<Real>,
        /// Latitude of each waypoint.
        gbest_ys: Vec<Real>,
        /// Seconds for each waypoint.
        gbest_ts: Vec<Real>,
        /// How good that route is; higher is better.
        best_fit: Real,
    },
}

/// The wind that a search is made in.
#[derive(Debug)]
pub enum WindInput {
    /// One wind map.
    Single(BakedWindMap),
    /// An ensemble and its mean.
    Ensemble { ensemble: BakedEnsembleWindMap, mean: BakedWindMap, mode: EnsembleMode },
}

/// The winds of a search, told apart by what they are for.
#[derive(Debug)]
pub struct SearchWinds {
    /// The wind of the benchmark, and of a route judged by one wind.
    pub baked: BakedWindMap,
    /// The winds that judge a route, where each member does.
    pub judges: Option<BakedEnsembleWindMap>,
}

impl WindInput {
    /// One wind map.
    pub fn single(baked: BakedWindMap) -> (w: WindInput)
        ensures
            w == WindInput::Single(baked),
    {
        WindInput::Single(baked)
    }

    /// An ensemble whose members all judge a route. `plus` adds winds and `share`
    /// divides one.
    pub fn ensemble_full<P: Fn(Wind, Wind) -> Wind, D: Fn(Wind, usize) -> Wind>(
        ensemble: BakedEnsembleWindMap,
        plus: &P,
        share: &D,
    ) -> (w: WindInput)
        requires
            ensemble.members@.len() > 0,
            ensemble.aligned(),
            given::settled2(*plus),
            given::settled2(*share),
        ensures
            w matches WindInput::Ensemble { ensemble: e, mean, mode } && e == ensemble && mode
                == EnsembleMode::Full && is_mean(mean, ensemble, *plus, *share),
    {
        let mean = ensemble.mean(plus, share);
        WindInput::Ensemble { ensemble, mean, mode: EnsembleMode::Full }
    }

    /// An ensemble whose mean judges a route. `plus` adds winds and `share` divides one.
    pub fn ensemble_fast_mean<P: Fn(Wind, Wind) -> Wind, D: Fn(Wind, usize) -> Wind>(
        ensemble: BakedEnsembleWindMap,
        plus: &P,
        share: &D,
    ) -> (w: WindInput)
        requires
            ensemble.members@.len() > 0,
            ensemble.aligned(),
            given::settled2(*plus),
            given::settled2(*share),
        ensures
            w matches WindInput::Ensemble { ensemble: e, mean, mode } && e == ensemble && mode
                == EnsembleMode::FastMean && is_mean(mean, ensemble, *plus, *share),
    {
        let mean = ensemble.mean(plus, share);
        WindInput::Ensemble { ensemble, mean, mode: EnsembleMode::FastMean }
    }

    /// Which winds there are for what. An ensemble that is judged by its mean is one
    /// wind map: its mean.
    pub fn resolve(self) -> (winds: SearchWinds)
        ensures
            match self {
                WindInput::Single(baked) => winds.baked == baked && winds.judges is None,
                WindInput::Ensemble { ensemble, mean, mode } => winds.baked == mean && (
                winds.judges is Some <==> mode == EnsembleMode::Full) && (winds.judges is Some
                    ==> winds.judges == Some(ensemble)),
            },
    {
        match self {
            WindInput::Single(baked) => SearchWinds { baked, judges: None },
            WindInput::Ensemble { ensemble, mean, mode } => match mode {
                EnsembleMode::FastMean => SearchWinds { baked: mean, judges: None },
                EnsembleMode::Full => SearchWinds { baked: mean, judges: Some(ensemble) },
            },
        }
    }
}

/// Whether a map is the mean of an ensemble.
pub open spec fn is_mean<P: Fn(Wind, Wind) -> Wind, D: Fn(Wind, usize) -> Wind>(
    mean: BakedWindMap,
    e: BakedEnsembleWindMap,
    plus: P,
    share: D,
) -> bool {
    let first = e.members@[0];
    &&& mean.wf()
    &&& (mean.nx, mean.ny, mean.nt) == (first.nx, first.ny, first.nt)
    &&& (mean.x_min, mean.y_min, mean.step) == (first.x_min, first.y_min, first.step)
    &&& (mean.t_step_seconds, mean.crossfade_seconds, mean.coord_scale) == (
        first.t_step_seconds,
        first.crossfade_seconds,
        first.coord_scale,
    )
    &&& forall|p: int|
        0 <= p < mean.grid@.len() ==> #[trigger] mean.grid@[p] == given::gives2(
            share,
            crate::ensemble::total(e.members@, p, e.members@.len() as int, plus),
            e.members@.len() as usize,
        )
}

/// Which land a search knows of.
#[derive(Clone, Copy, Debug, PartialEq, Eq, Structural)]
pub enum LandTier {
    /// One grid with cells of so many degrees.
    Single(Real),
    /// A coarse grid, with finer ones laid over the straits.
    TwoTier { coarse: Real, fine: Real },
}

/// Which land a search knows of: finer grids only where they are asked for.
pub fn land_tier(sdf_resolution_deg: Real, fine_sdf_resolution_deg: Option<Real>) -> (t: LandTier)
    ensures
        t == (match fine_sdf_resolution_deg {
            None => LandTier::Single(sdf_resolution_deg),
            Some(fine) => LandTier::TwoTier { coarse: sdf_resolution_deg, fine },
        }),
{
    match fine_sdf_resolution_deg {
        None => LandTier::Single(sdf_resolution_deg),
        Some(fine) => LandTier::TwoTier { coarse: sdf_resolution_deg, fine },
    }
}

/// What a route costs in the wind of a member, with the timing that is best there.
#[derive(Clone, Debug)]
pub struct MemberMetrics {
    /// The name of the member.
    pub name: String,
    /// Seconds of travel.
    pub time_s: Real,
    /// Kilograms of fuel.
    pub fuel_kg: Real,
    /// Metres over land, which are the same for every member.
    pub land_m: Real,
    /// How good the route is there; higher is better.
    pub fitness: Real,
}

/// What a route costs in the wind of every member.
#[derive(Clone, Debug)]
pub struct EnsembleSpread {
    pub per_member: Vec<MemberMetrics>,
}

/// Which of the costs is looked at.
#[derive(Clone, Copy, Debug, PartialEq, Eq, Structural)]
pub enum MetricField {
    Time,
    Fuel,
    Land,
    Fitness,
}

impl MemberMetrics {
    /// One of the costs.
    pub open spec fn value(&self, field: MetricField) -> Real {
        match field {
            MetricField::Time => self.time_s,
            MetricField::Fuel => self.fuel_kg,
            MetricField::Land => self.land_m,
            MetricField::Fitness => self.fitness,
        }
    }

    /// One of the costs.
    pub fn get(&self, field: MetricField) -> (v: Real)
        ensures
            v == self.value(field),
    {
        match field {
            MetricField::Time => self.time_s,
            MetricField::Fuel => self.fuel_kg,
            MetricField::Land => self.land_m,
            MetricField::Fitness => self.fitness,
        }
    }
}

impl EnsembleSpread {
    /// One of the costs for every member.
    pub open spec fn values(&self, field: MetricField) -> Seq<Real> {
        Seq::new(self.per_member@.len(), |k: int| self.per_member@[k].value(field))
    }

    /// Which values of a cost there are.
    fn list(&self, field: MetricField) -> (values: Vec<Real>)
        ensures
            values@ == self.values(field),
    {
        let mut values: Vec<Real> = Vec::new();
        let mut k: usize = 0;
        while k < self.per_member.len()
            invariant
                k <= self.per_member@.len(),
                values@ == self.values(field).take(k as int),
            decreases self.per_member@.len() - k,
        {
            values.push(self.per_member[k].get(field));
            assert(self.values(field).take(k + 1) =~= self.values(field).take(k as int).push(
                self.values(field)[k as int],
            ));
            k += 1;
        }
        assert(self.values(field).take(k as int) =~= self.values(field));
        values
    }

    /// The mean, the least, the greatest and the standard deviation of a cost over the
    /// members; no number at all where there are no members. `plus` adds, `share`
    /// divides by a count, `off` is the square of how far a value is off the mean, and
    /// `root` is the square root.
    pub fn stats<
        P: Fn(Real, Real) -> Real,
        D: Fn(Real, usize) -> Real,
        Q: Fn(Real, Real) -> Real,
        R: Fn(Real) -> Real,
    >(&self, field: MetricField, plus: &P, share: &D, off: &Q, root: &R) -> (r: (
        Real,
        Real,
        Real,
        Real,
    ))
        requires
            given::settled2(*plus),
            given::settled2(*share),
            given::settled2(*off),
            given::settled1(*root),
        ensures
            ({
                let values = self.values(field);
                let n = values.len() as usize;
                let (mean, least, greatest, deviation) = r;
                if values.len() == 0 {
                    mean.nan() && least.nan() && greatest.nan() && deviation.nan()
                } else {
                    &&& mean == given::gives2(*share, sum_of(values, *plus), n)
                    &&& least == bounds::least_of(values)
                    &&& greatest == bounds::greatest_of(values)
                    &&& deviation == given::gives1(
                        *root,
                        given::gives2(*share, sum_of(all_off(values, mean, *off), *plus), n),
                    )
                }
            }),
    {
        let values: Vec<Real> = self.list(field);
        let n: usize = values.len();
        if n == 0 {
            let nan: Real = Real { bits: NOT_A_NUMBER };
            return (nan, nan, nan, nan);
        }
        let mean: Real = share(total(values.as_slice(), plus), n);
        let mut least: Real = Real { bits: crate::number::INFINITY_64 };
        let mut greatest: Real = Real {
            bits: crate::number::INFINITY_64 + crate::number::SIGN_64,
        };
        let mut offs: Vec<Real> = Vec::new();
        let mut k: usize = 0;
        assert(values@.take(0) =~= Seq::<Real>::empty());
        while k < n
            invariant
                k <= n,
                n == values@.len(),
                given::settled2(*off),
                least == bounds::least_of(values@.take(k as int)),
                greatest == bounds::greatest_of(values@.take(k as int)),
                offs@ =~= all_off(values@, mean, *off).take(k as int),
            decreases n - k,
        {
            assert(values@.take(k + 1).drop_last() =~= values@.take(k as int));
            assert(values@.take(k + 1).last() == values@[k as int]);
            least = least.min(values[k]);
            greatest = greatest.max(values[k]);
            offs.push(off(values[k], mean));
            k += 1;
        }
        assert(values@.take(n as int) =~= values@);
        assert(offs@ =~= all_off(values@, mean, *off));
        let deviation: Real = root(share(total(offs.as_slice(), plus), n));
        (mean, least, greatest, deviation)
    }
}

/// The bits of a value that is no number.
pub const NOT_A_NUMBER: u64 = 0x7FF8_0000_0000_0000;

/// The sum of numbers, from the first on.
pub open spec fn sum_of<P: Fn(Real, Real) -> Real>(s: Seq<Real>, plus: P) -> Real
    decreases s.len(),
{
    if s.len() <= 1 {
        s[0]
    } else {
        given::gives2(plus, sum_of(s.drop_last(), plus), s.last())
    }
}

/// How far each value is off the mean, squared.
pub open spec fn all_off<Q: Fn(Real, Real) -> Real>(s: Seq<Real>, mean: Real, off: Q) -> Seq<Real> {
    Seq::new(s.len(), |k: int| given::gives2(off, s[k], mean))
}

/// The sum of numbers, from the first on.
pub fn total<P: Fn(Real, Real) -> Real>(s: &[Real], plus: &P) -> (t: Real)
    requires
        s@.len() > 0,
        given::settled2(*plus),
    ensures
        t == sum_of(s@, *plus),
{
    let mut t: Real = s[0];
    let mut k: usize = 1;
    assert(s@.take(1)[0] == s@[0]);
    while k < s.len()
        invariant
            1 <= k <= s@.len(),
            given::settled2(*plus),
            t == sum_of(s@.take(k as int), *plus),
        decreases s@.len() - k,
    {
        assert(s@.take(k + 1).drop_last() =~= s@.take(k as int));
        assert(s@.take(k + 1).last() == s@[k as int]);
        t = plus(t, s[k]);
        k += 1;
    }
    assert(s@.take(k as int) =~= s@);
    t
}

/// What each leg takes: seconds, or kilograms of fuel.
pub open spec fn taken(raw: Seq<(Real, Real, Real)>, of_time: bool) -> Seq<Real> {
    Seq::new(
        raw.len(),
        |k: int|
            if of_time {
                raw[k].2
            } else {
                raw[k].1
            },
    )
}

/// The benchmark along the waypoints, from load, fuel and time of its legs and from
/// the metres of each over land. `plus` adds.
pub fn benchmark_along<P: Fn(Real, Real) -> Real>(
    waypoints: Vec<(Real, Real)>,
    raw: &Vec<(Real, Real, Real)>,
    land: &Vec<Real>,
    fitness: Real,
    plus: &P,
) -> (b: BenchmarkRoute)
    requires
        raw@.len() > 0,
        land@.len() > 0,
        given::settled2(*plus),
    ensures
        b.waypoints == waypoints,
        b.total_time == sum_of(taken(raw@, true), *plus),
        b.total_fuel == sum_of(taken(raw@, false), *plus),
        b.total_land_metres == sum_of(land@, *plus),
        b.fitness == fitness,
{
    let mut times: Vec<Real> = Vec::new();
    let mut fuels: Vec<Real> = Vec::new();
    let mut k: usize = 0;
    while k < raw.len()
        invariant
            k <= raw@.len(),
            times@ =~= taken(raw@, true).take(k as int),
            fuels@ =~= taken(raw@, false).take(k as int),
        decreases raw@.len() - k,
    {
        let (_, fuel, time) = raw[k];
        times.push(time);
        fuels.push(fuel);
        k += 1;
    }
    assert(times@ =~= taken(raw@, true));
    assert(fuels@ =~= taken(raw@, false));
    BenchmarkRoute {
        waypoints,
        total_time: total(times.as_slice(), plus),
        total_fuel: total(fuels.as_slice(), plus),
        total_land_metres: total(land.as_slice(), plus),
        fitness,
    }
}

/// Whether two benchmarks say the same.
pub open spec fn same_benchmark(a: BenchmarkRoute, b: BenchmarkRoute) -> bool {
    &&& a.waypoints@ == b.waypoints@
    &&& a.total_time == b.total_time
    &&& a.total_fuel == b.total_fuel
    &&& a.total_land_metres == b.total_land_metres
    &&& a.fitness == b.fitness
}

/// The benchmark again.
fn copied_benchmark(b: &BenchmarkRoute) -> (c: BenchmarkRoute)
    ensures
        same_benchmark(c, *b),
{
    let mut waypoints: Vec<(Real, Real)> = Vec::new();
    let mut k: usize = 0;
    while k < b.waypoints.len()
        invariant
            k <= b.waypoints@.len(),
            waypoints@ == b.waypoints@.take(k as int),
        decreases b.waypoints@.len() - k,
    {
        waypoints.push(b.waypoints[k]);
        assert(b.waypoints@.take(k + 1) =~= b.waypoints@.take(k as int).push(
            b.waypoints@[k as int],
        ));
        k += 1;
    }
    assert(b.waypoints@.take(k as int) =~= b.waypoints@);
    BenchmarkRoute {
        waypoints,
        total_time: b.total_time,
        total_fuel: b.total_fuel,
        total_land_metres: b.total_land_metres,
        fitness: b.fitness,
    }
}

/// What a run waits for.
#[derive(Clone, Copy, Debug, PartialEq, Eq, Structural)]
pub enum SearchAsk {
    /// The benchmark.
    Benchmark,
    /// The swarm, moved as often as it is to be.
    Swarm,
    /// What the best route costs in the wind of a member.
    Member(usize),
    /// Nothing more.
    Finish,
}

/// What a search gives.
pub struct SearchOutcome {
    pub route_evolution: RouteEvolution,
    pub benchmark: Option<BenchmarkRoute>,
    /// What the best route costs for every member, where every member judged.
    pub ensemble: Option<EnsembleSpread>,
}

/// What the swarm found.
pub struct SwarmResult {
    /// The particles after each iteration.
    pub evolution: RouteEvolution,
    /// How good the best route is.
    pub best_fit: Real,
    /// Metres of the best route over land.
    pub land_m: Real,
}

/// A search under way.
pub struct SearchRun {
    /// How often the swarm is to be moved.
    pub total_iters: usize,
    /// How many waypoints every path has.
    pub waypoints: WaypointCount,
    /// How often the swarm has been moved.
    pub moved: usize,
    /// The members that judge, where members do.
    pub judges: Option<Vec<String>>,
    /// Whether the benchmark was told of.
    pub benched: bool,
    pub benchmark: Option<BenchmarkRoute>,
    pub found: Option<SwarmResult>,
    /// What the best route costs for the members that were asked.
    pub spread: Vec<MemberMetrics>,
}

impl SearchRun {
    /// How many members judge.
    pub open spec fn judge_count(&self) -> nat {
        match self.judges {
            Some(names) => names@.len(),
            None => 0,
        }
    }

    /// What the run waits for.
    pub open spec fn asks(&self) -> SearchAsk {
        if !self.benched {
            SearchAsk::Benchmark
        } else if self.found is None {
            SearchAsk::Swarm
        } else if self.spread@.len() < self.judge_count() {
            SearchAsk::Member(self.spread@.len() as usize)
        } else {
            SearchAsk::Finish
        }
    }

    /// Whether what is known so far fits together.
    pub open spec fn wf(&self) -> bool {
        &&& self.found is Some ==> self.benched
        &&& self.moved <= self.total_iters
        &&& self.moved > 0 ==> self.benched
        &&& self.benchmark is Some ==> self.benched
        &&& self.found is None ==> self.spread@.len() == 0
        &&& self.spread@.len() <= self.judge_count()
        &&& self.found matches Some(found) ==> {
            &&& found.evolution.wf()
            &&& found.evolution.waypoints() == self.waypoints
            &&& self.moved == self.total_iters
            &&& forall|k: int|
                0 <= k < self.spread@.len() ==> (#[trigger] self.spread@[k]).name@
                    == self.judges->0@[k]@ && self.spread@[k].land_m == found.land_m
        }
    }

    /// What the run waits for.
    pub fn ask(&self) -> (a: SearchAsk)
        requires
            self.wf(),
        ensures
            a == self.asks(),
    {
        if !self.benched {
            return SearchAsk::Benchmark;
        }
        if self.found.is_none() {
            return SearchAsk::Swarm;
        }
        match &self.judges {
            Some(names) => if self.spread.len() < names.len() {
                SearchAsk::Member(self.spread.len())
            } else {
                SearchAsk::Finish
            },
            None => SearchAsk::Finish,
        }
    }

    /// A search in which the named members judge, or one wind where there are none
    /// named. The first thing reported is that the benchmark is computed.
    pub fn begin(total_iters: usize, waypoints: WaypointCount, judges: Option<Vec<String>>) -> (r: (
        SearchRun,
        SearchProgressEvent,
    ))
        ensures
            r.0.wf(),
            r.0.asks() == SearchAsk::Benchmark,
            r.0.total_iters == total_iters,
            r.0.waypoints == waypoints,
            r.0.moved == 0,
            r.0.judges == judges,
            r.0.benchmark is None,
            r.0.found is None,
            r.0.spread@.len() == 0,
            r.1 == SearchProgressEvent::Phase(SearchPhase::Benchmark),
    {
        (
            SearchRun {
                total_iters,
                waypoints,
                moved: 0,
                judges,
                benched: false,
                benchmark: None,
                found: None,
                spread: Vec::new(),
            },
            SearchProgressEvent::Phase(SearchPhase::Benchmark),
        )
    }

    /// Takes the benchmark, or that there is no way by sea. The benchmark is reported
    /// where there is one, and then that the swarm is moved.
    pub fn on_benchmark(&mut self, benchmark: Option<BenchmarkRoute>) -> (events: Vec<
        SearchProgressEvent,
    >)
        requires
            old(self).wf(),
            old(self).asks() == SearchAsk::Benchmark,
        ensures
            final(self).wf(),
            final(self).asks() == SearchAsk::Swarm,
            final(self).total_iters == old(self).total_iters,
            final(self).waypoints == old(self).waypoints,
            final(self).moved == old(self).moved,
            final(self).judges == old(self).judges,
            final(self).benchmark == benchmark,
            final(self).spread == old(self).spread,
            events@.last() == SearchProgressEvent::Phase(SearchPhase::RunningPso),
            benchmark is None ==> events@.len() == 1,
            benchmark matches Some(b) ==> events@.len() == 2 && (
            events@[0] matches SearchProgressEvent::BenchmarkReady(c) && same_benchmark(c, b)),
    {
        let mut events: Vec<SearchProgressEvent> = Vec::new();
        if let Some(b) = &benchmark {
            events.push(SearchProgressEvent::BenchmarkReady(copied_benchmark(b)));
        }
        events.push(SearchProgressEvent::Phase(SearchPhase::RunningPso));
        self.benched = true;
        self.benchmark = benchmark;
        events
    }

    /// Counts that the swarm was moved once more. What is reported is the best route so far,
    /// and which time it was, counted from 0.
    pub fn on_iteration(&mut self, best: &Particle) -> (e: SearchProgressEvent)
        requires
            old(self).wf(),
            old(self).asks() == SearchAsk::Swarm,
            old(self).moved < old(self).total_iters,
            best@.has(old(self).waypoints.count()),
        ensures
            final(self).wf(),
            final(self).asks() == SearchAsk::Swarm,
            final(self).moved == old(self).moved + 1,
            final(self).total_iters == old(self).total_iters,
            final(self).waypoints == old(self).waypoints,
            final(self).judges == old(self).judges,
            final(self).benchmark == old(self).benchmark,
            final(self).spread == old(self).spread,
            e matches SearchProgressEvent::Iteration {
                iter_idx,
                total_iters,
                gbest_xs,
                gbest_ys,
                gbest_ts,
                best_fit,
            } && iter_idx == old(self).moved && total_iters == old(self).total_iters && best@ == (
            Found { xs: gbest_xs@, ys: gbest_ys@, ts: gbest_ts@, best_fit }),
    {
        let iter_idx: usize = self.moved;
        self.moved = iter_idx + 1;
        SearchProgressEvent::Iteration {
            iter_idx,
            total_iters: self.total_iters,
            gbest_xs: copied(best.xs.as_slice()),
            gbest_ys: copied(best.ys.as_slice()),
            gbest_ts: copied(best.ts.as_slice()),
            best_fit: best.best_fit,
        }
    }

    /// Takes what the swarm found when it was moved as often as it was to be.
    pub fn on_swarm(&mut self, found: SwarmResult)
        requires
            old(self).wf(),
            old(self).asks() == SearchAsk::Swarm,
            old(self).moved == old(self).total_iters,
            found.evolution.wf(),
            found.evolution.waypoints() == old(self).waypoints,
        ensures
            final(self).wf(),
            final(self).total_iters == old(self).total_iters,
            final(self).waypoints == old(self).waypoints,
            final(self).moved == old(self).moved,
            final(self).judges == old(self).judges,
            final(self).benchmark == old(self).benchmark,
            final(self).found == Some(found),
            final(self).spread == old(self).spread,
            final(self).asks() == (if old(self).judge_count() > 0 {
                SearchAsk::Member(0)
            } else {
                SearchAsk::Finish
            }),
    {
        self.found = Some(found);
    }

    /// Takes what the best route costs in the wind of the member that was asked for.
    pub fn on_member(&mut self, time_s: Real, fuel_kg: Real, fitness: Real)
        requires
            old(self).wf(),
            old(self).asks() is Member,
        ensures
            final(self).wf(),
            final(self).total_iters == old(self).total_iters,
            final(self).waypoints == old(self).waypoints,
            final(self).moved == old(self).moved,
            final(self).judges == old(self).judges,
            final(self).benchmark == old(self).benchmark,
            final(self).found == old(self).found,
            final(self).spread@.len() == old(self).spread@.len() + 1,
            final(self).spread@.drop_last() == old(self).spread@,
            final(self).spread@.last().name@ == old(self).judges->0@[old(self).spread@.len() as int]@,
            final(self).spread@.last().time_s == time_s,
            final(self).spread@.last().fuel_kg == fuel_kg,
            final(self).spread@.last().land_m == old(self).found->0.land_m,
            final(self).spread@.last().fitness == fitness,
    {
        let ghost was = self.spread@;
        if let Some(names) = &self.judges {
            if let Some(found) = &self.found {
                let name: String = names[self.spread.len()].as_str().to_owned();
                let land_m: Real = found.land_m;
                self.spread.push(MemberMetrics { name, time_s, fuel_kg, land_m, fitness });
            }
        }
        assert(self.spread@.drop_last() =~= was);
    }

    /// What the search gives: no route where the best is not finitely good. What it
    /// costs for the members is told where members judge.
    pub fn finish(self) -> (r: Result<SearchOutcome, SearchError>)
        requires
            self.wf(),
            self.asks() == SearchAsk::Finish,
        ensures
            match self.found {
                Some(found) => if found.best_fit.finite() {
                    r matches Ok(out) && out.route_evolution == found.evolution && out.benchmark
                        == self.benchmark && (out.ensemble is Some <==> self.judges is Some) && (
                    out.ensemble matches Some(spread) ==> spread.per_member == self.spread)
                } else {
                    r == Err::<SearchOutcome, SearchError>(
                        SearchError::NoFeasibleRoute { best_fit: found.best_fit },
                    )
                },
                None => false,
            },
    {
        let ensemble: Option<EnsembleSpread> = if self.judges.is_some() {
            Some(EnsembleSpread { per_member: self.spread })
        } else {
            None
        };
        match self.found {
            Some(found) => {
                if !found.best_fit.is_finite() {
                    return Err(SearchError::NoFeasibleRoute { best_fit: found.best_fit });
                }
                Ok(
                    SearchOutcome {
                        route_evolution: found.evolution,
                        benchmark: self.benchmark,
                        ensemble,
                    },
                )
            },
            None => Err(SearchError::NoFeasibleRoute { best_fit: Real { bits: 0 } }),
        }
    }
}

/// When what the swarm found is known, as many iterations were told of as there were to be.
pub proof fn law_every_iteration_is_told(run: SearchRun)
    requires
        run.wf(),
        run.asks() is Member || run.asks() == SearchAsk::Finish,
    ensures
        run.moved == run.total_iters,
{
}

/// When a search with judges is done, every one of them has been asked, once and in order.
pub proof fn law_every_member_judges(run: SearchRun)
    requires
        run.wf(),
        run.asks() == SearchAsk::Finish,
        run.judges is Some,
    ensures
        run.spread@.len() == run.judges->0@.len(),
        forall|k: int|
            0 <= k < run.spread@.len() ==> (#[trigger] run.spread@[k]).name@ == run.judges->0@[k]@,
{
}

/// What the random numbers of a member's own search start from.
pub open spec fn seed_of(base_seed: u64, k: int) -> int {
    (base_seed + k) % 0x1_0000_0000_0000_0000
}

/// No two members' own searches start from the same.
pub proof fn law_seeds_differ(base_seed: u64, j: int, k: int)
    requires
        0 <= j < k < 0x1_0000_0000_0000_0000,
    ensures
        seed_of(base_seed, j) != seed_of(base_seed, k),
{
}

/// What a search in the wind of one member found.
pub struct RealizationRun {
    /// The name of the member.
    pub name: String,
    pub route_evolution: RouteEvolution,
    /// What each leg of the best route costs.
    pub segment_stats: Vec<SegmentMetrics>,
    /// How good the best route is; higher is better.
    pub fitness: Real,
}

/// Searches in the wind of each member, one after the other.
pub struct Realizations {
    pub base_seed: u64,
    pub names: Vec<String>,
    pub runs: Vec<RealizationRun>,
}

/// How good the best route after the last iteration is.
pub open spec fn last_fitness(found: Seq<Seq<Found>>) -> Real {
    route::path_at(found, (found.len() - 1, route::best_of(found.last()))).best_fit
}

impl Realizations {
    /// Whether what was found so far is of the first members.
    pub open spec fn wf(&self) -> bool {
        &&& self.runs@.len() <= self.names@.len()
        &&& forall|k: int|
            0 <= k < self.runs@.len() ==> (#[trigger] self.runs@[k]).name@ == self.names@[k]@
    }

    /// Searches in the winds of the named members.
    pub fn begin(names: Vec<String>, base_seed: u64) -> (r: Realizations)
        ensures
            r.wf(),
            r.names == names,
            r.base_seed == base_seed,
            r.runs@.len() == 0,
    {
        Realizations { base_seed, names, runs: Vec::new() }
    }

    /// The member that is to be searched for next, and what its random numbers start
    /// from; `None` where all have been.
    pub fn pending(&self) -> (p: Option<(usize, u64)>)
        requires
            self.wf(),
        ensures
            p is Some <==> self.runs@.len() < self.names@.len(),
            p matches Some((k, seed)) ==> k == self.runs@.len() && seed == seed_of(
                self.base_seed,
                k as int,
            ),
    {
        let k: usize = self.runs.len();
        if k < self.names.len() {
            Some((k, self.base_seed.wrapping_add(k as u64)))
        } else {
            None
        }
    }

    /// Takes what the search for the next member found. The first search that finds
    /// nothing ends all.
    pub fn on_result(
        self,
        result: Result<(RouteEvolution, Vec<SegmentMetrics>), SearchError>,
    ) -> (r: Result<Realizations, SearchError>)
        requires
            self.wf(),
            self.runs@.len() < self.names@.len(),
            result matches Ok((evolution, stats)) ==> evolution.found().len() > 0
                && evolution.found().last().len() > 0,
        ensures
            match result {
                Err(e) => r == Err::<Realizations, SearchError>(e),
                Ok((evolution, stats)) => r matches Ok(next) && {
                    &&& next.wf()
                    &&& next.names == self.names
                    &&& next.base_seed == self.base_seed
                    &&& next.runs@.len() == self.runs@.len() + 1
                    &&& next.runs@.drop_last() == self.runs@
                    &&& next.runs@.last().route_evolution == evolution
                    &&& next.runs@.last().segment_stats == stats
                    &&& next.runs@.last().fitness == last_fitness(evolution.found())
                },
            },
    {
        let (evolution, stats) = match result {
            Err(e) => {
                return Err(e);
            },
            Ok(found) => found,
        };
        let Realizations { base_seed, names, runs } = self;
        let k: usize = runs.len();
        let last: usize = evolution.iter_count() - 1;
        let fitness: Real = match evolution.gbest_at(last) {
            Some(g) => g.best_fit,
            None => Real { bits: 0 },
        };
        let name: String = names[k].as_str().to_owned();
        let ghost was = runs@;
        let mut runs: Vec<RealizationRun> = runs;
        runs.push(RealizationRun { name, route_evolution: evolution, segment_stats: stats, fitness });
        assert(runs@.drop_last() =~= was);
        Ok(Realizations { base_seed, names, runs })
    }
}

/// Numbers are summed from the first on, one after another; a single number is its own sum.
pub proof fn law_sums_go_from_the_first_on<P: Fn(Real, Real) -> Real>(s: Seq<Real>, x: Real, plus: P)
    requires
        s.len() > 0,
    ensures
        sum_of(s.push(x), plus) == given::gives2(plus, sum_of(s, plus), x),
        sum_of(seq![x], plus) == x,
{
    assert(s.push(x).drop_last() =~= s);
}

/// Each number's distance from the mean, in order.
pub proof fn law_distances_from_the_mean<Q: Fn(Real, Real) -> Real>(
    s: Seq<Real>,
    mean: Real,
    off: Q,
    k: int,
)
    requires
        0 <= k < s.len(),
    ensures
        all_off(s, mean, off).len() == s.len(),
        all_off(s, mean, off)[k] == given::gives2(off, s[k], mean),
{
}

/// The values of a field are those of the members, in order.
pub proof fn law_values_of_a_field(e: EnsembleSpread, k: int)
    requires
        0 <= k < e.per_member@.len(),
    ensures
        e.values(MetricField::Time)[k] == e.per_member@[k].time_s,
        e.values(MetricField::Fuel)[k] == e.per_member@[k].fuel_kg,
        e.values(MetricField::Land)[k] == e.per_member@[k].land_m,
        e.values(MetricField::Fitness)[k] == e.per_member@[k].fitness,
        e.values(MetricField::Time).len() == e.per_member@.len(),
        e.values(MetricField::Fuel).len() == e.per_member@.len(),
        e.values(MetricField::Land).len() == e.per_member@.len(),
        e.values(MetricField::Fitness).len() == e.per_member@.len(),
{
}

/// Of what is told of a leg the fuel stands second and the time third.
pub proof fn law_times_and_fuel_of_legs(raw: Seq<(Real, Real, Real)>, k: int)
    requires
        0 <= k < raw.len(),
    ensures
        taken(raw, true).len() == raw.len(),
        taken(raw, false).len() == raw.len(),
        taken(raw, true)[k] == raw[k].2,
        taken(raw, false)[k] == raw[k].1,
{
}

/// The first member has the seed asked for, and each further one the next number, 0 after the
/// greatest.
pub proof fn law_seeds_count_on(base_seed: u64, k: int)
    requires
        k >= 0,
    ensures
        seed_of(base_seed, 0) == base_seed,
        0 <= seed_of(base_seed, k) <= u64::MAX,
        seed_of(base_seed, k + 1) == (if seed_of(base_seed, k) == u64::MAX {
            0
        } else {
            seed_of(base_seed, k) + 1
        }),
{
}

/// A search asks for the benchmark first, then for the swarm, then for every member that
/// judges, in order, and then for nothing more.
pub proof fn law_search_asks_in_turn(run: SearchRun)
    requires
        run.wf(),
    ensures
        run.asks() == SearchAsk::Benchmark <==> !run.benched,
        run.asks() == SearchAsk::Swarm <==> run.benched && run.found is None,
        run.asks() is Member ==> run.found is Some && run.judges is Some && run.asks()
            == SearchAsk::Member(run.spread@.len() as usize) && run.spread@.len() < run.judges->0@.len(),
        run.asks() == SearchAsk::Finish ==> run.found is Some && (run.judges is Some
            ==> run.spread@.len() == run.judges->0@.len()),
{
}

/// A search is as good as the best path after its last iteration.
pub proof fn law_last_fitness_is_the_best(found: Seq<Seq<Found>>, k: int)
    requires
        found.len() > 0,
        0 <= k < found.last().len(),
        forall|i: int| 0 <= i < found.last().len() ==> !(#[trigger] found.last()[i]).best_fit.nan(),
    ensures
        found[found.len() - 1][k].best_fit.at_most(last_fitness(found)),
        exists|i: int|
            0 <= i < found.last().len() && (#[trigger] found.last()[i]).best_fit == last_fitness(found),
{
    route::law_best_is_the_last_greatest(found.last());
    let i = route::best_of(found.last());
    assert(found.last()[i].best_fit == last_fitness(found));
    assert(found.last()[k].best_fit.at_most(found.last()[i].best_fit));
}

/// Benchmarks are the same where they have the same waypoints and the same totals.
pub proof fn law_same_benchmarks(a: BenchmarkRoute, b: BenchmarkRoute)
    ensures
        same_benchmark(a, b) <==> a.waypoints@ == b.waypoints@ && (a.total_time, a.total_fuel) == (
            b.total_time,
            b.total_fuel,
        ) && (a.total_land_metres, a.fitness) == (b.total_land_metres, b.fitness),
{
}

/// The mean of an ensemble lies on the grid of its first member, cell for cell and time for time.
pub proof fn law_mean_lies_on_the_first_grid<P: Fn(Wind, Wind) -> Wind, D: Fn(Wind, usize) -> Wind>(
    mean: BakedWindMap,
    e: BakedEnsembleWindMap,
    plus: P,
    share: D,
)
    requires
        is_mean(mean, e, plus, share),
        e.members@.len() > 0,
        e.members@[0].wf(),
    ensures
        mean.nx == e.members@[0].nx,
        mean.ny == e.members@[0].ny,
        mean.nt == e.members@[0].nt,
        mean.x_min == e.members@[0].x_min,
        mean.y_min == e.members@[0].y_min,
        mean.step == e.members@[0].step,
        mean.t_step_seconds == e.members@[0].t_step_seconds,
        mean.crossfade_seconds == e.members@[0].crossfade_seconds,
        mean.coord_scale == e.members@[0].coord_scale,
        mean.grid@.len() == e.members@[0].grid@.len(),
{
}

} // verus!
