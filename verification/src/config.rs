//! What a run is set up with: the random wind generator, the search, and the boat.
//!
//! A set of values is good where each of a list of demands holds of it. The first
//! demand that does not hold is what the user is told.
use crate::given;
use crate::number::Real;
use crate::number::Real32;
use crate::route::WaypointCount;
use crate::text;
use vstd::prelude::*;
use vstd::string::*;

verus! {

/// The bits of 1e-6.
pub const MILLIONTH: u64 = 0x3EB0_C6F7_A0B5_ED8D;

/// The bits of 0.001.
pub const THOUSANDTH: u64 = 0x3F50_624D_D2F1_A9FC;

/// The bits of 0.005, the floor of a path kick as a fraction of the route.
pub const DEFAULT_PATH_KICK_GAMMA_MIN: u64 = 0x3F74_7AE1_47AE_147B;

/// The bits of 0.01.
pub const HUNDREDTH: u64 = 0x3F84_7AE1_47AE_147B;

/// The bits of 0.05.
pub const TWENTIETH: u64 = 0x3FA9_9999_9999_999A;

/// The bits of 0.1.
pub const TENTH: u64 = 0x3FB9_9999_9999_999A;

/// The bits of 0.25.
pub const QUARTER: u64 = 0x3FD0_0000_0000_0000;

/// The bits of 0.33, the weight of a particle's earlier velocity.
pub const DEFAULT_INERTIA: u64 = 0x3FD5_1EB8_51EB_851F;

/// The bits of 0.5.
pub const HALF: u64 = 0x3FE0_0000_0000_0000;

/// The bits of 1.
pub const ONE: u64 = 0x3FF0_0000_0000_0000;

/// The bits of 2.
pub const TWO: u64 = 0x4000_0000_0000_0000;

/// The bits of 5.
pub const FIVE: u64 = 0x4014_0000_0000_0000;

/// The bits of 10.
pub const TEN: u64 = 0x4024_0000_0000_0000;

/// The bits of 50.
pub const FIFTY: u64 = 0x4049_0000_0000_0000;

/// The bits of 1000, the power of the engine in kilowatts.
pub const DEFAULT_MCR_KW: u64 = 0x408F_4000_0000_0000;

/// The bits of 4000, the drag of the hull.
pub const DEFAULT_DRAG: u64 = 0x40AF_4000_0000_0000;

/// The bits of 1.5, the scale of the polar curve.
pub const DEFAULT_POLAR: u64 = 0x3FF8_0000_0000_0000;

/// The bits of 0.0875, the first coefficient of fuel consumption.
pub const DEFAULT_FUEL_A: u64 = 0x3FB6_6666_6666_6666;

/// The bits of -0.0555, the second coefficient of fuel consumption.
pub const DEFAULT_FUEL_B: u64 = 0xBFAC_6A7E_F9DB_22D1;

/// The bits of 0.0347, the third coefficient of fuel consumption.
pub const DEFAULT_FUEL_C: u64 = 0x3FA1_C432_CA57_A787;

/// The bits of 3600 in single precision: one hour between frames.
pub const DEFAULT_FRAME_STEP_SECONDS: u32 = 0x4561_0000;

/// The bits of 10 in single precision: the width and height of a generated map.
pub const DEFAULT_GEN_SIZE: u32 = 0x4120_0000;

/// The bits of 0.5 in single precision: the distance between generated samples.
pub const DEFAULT_GEN_DENSITY: u32 = 0x3F00_0000;

/// The bits of 149 in single precision: the greatest generated speed.
pub const DEFAULT_GEN_SPEED_MAX: u32 = 0x4315_0000;

/// Who a particle is drawn to.
#[derive(Clone, Copy, Debug, PartialEq, Eq, Structural)]
pub enum Topology {
    /// The best of all.
    GBest,
    /// The best of those that set out from the same path.
    Niched,
    /// The better of the two beside it in a ring.
    Ring,
    /// The best of the four around it on a torus.
    VonNeumann,
}

impl Default for Topology {
    fn default() -> (t: Self)
        ensures
            t == Topology::GBest,
    {
        Topology::GBest
    }
}

/// How a search takes the members of an ensemble.
#[derive(Clone, Copy, Debug, PartialEq, Eq, Structural)]
pub enum EnsembleMode {
    /// A route is judged by every member.
    Full,
    /// A route is judged by the mean of the members alone.
    FastMean,
}

/// What a random wind map is generated from.
#[derive(Clone, Copy, Debug)]
pub struct GenerateConfig {
    pub size_x: Real32,
    pub size_y: Real32,
    pub density: Real32,
    pub frame_count: usize,
    pub step_seconds: Real32,
    pub speed_min: Real32,
    pub speed_max: Real32,
}

impl Default for GenerateConfig {
    fn default() -> (c: Self)
        ensures
            c.size_x == (Real32 { bits: DEFAULT_GEN_SIZE }),
            c.size_y == (Real32 { bits: DEFAULT_GEN_SIZE }),
            c.density == (Real32 { bits: DEFAULT_GEN_DENSITY }),
            c.frame_count == 12,
            c.step_seconds == (Real32 { bits: DEFAULT_FRAME_STEP_SECONDS }),
            c.speed_min == (Real32 { bits: 0 }),
            c.speed_max == (Real32 { bits: DEFAULT_GEN_SPEED_MAX }),
    {
        GenerateConfig {
            size_x: Real32 { bits: DEFAULT_GEN_SIZE },
            size_y: Real32 { bits: DEFAULT_GEN_SIZE },
            density: Real32 { bits: DEFAULT_GEN_DENSITY },
            frame_count: 12,
            step_seconds: Real32 { bits: DEFAULT_FRAME_STEP_SECONDS },
            speed_min: Real32 { bits: 0 },
            speed_max: Real32 { bits: DEFAULT_GEN_SPEED_MAX },
        }
    }
}

/// What is asked of a value.
#[derive(Clone, Copy, Debug)]
#[allow(inconsistent_fields)]
pub enum Demand {
    /// It is neither infinite nor NaN.
    Finite(Real),
    /// It is at least 0.
    NonNegative(Real),
    /// It is above 0.
    Positive(Real),
    /// It is at least 1.
    AtLeastOne(usize),
    /// It is between 0 and 1.
    UnitInterval(Real),
    /// It is not above the value of another field.
    NoMoreThan { value: Real, name: &'static str, limit: Real },
    /// It is between two bounds, which `range` shows.
    Between { value: Real, low: Real, high: Real, range: &'static str },
    /// It is between two bounds.
    CountBetween { value: usize, low: usize, high: usize },
}

impl Demand {
    /// Whether it holds.
    pub open spec fn met(self) -> bool {
        match self {
            Demand::Finite(v) => v.finite(),
            Demand::NonNegative(v) => (Real { bits: 0 }).at_most(v),
            Demand::Positive(v) => (Real { bits: 0 }).below(v),
            Demand::AtLeastOne(n) => n >= 1,
            Demand::UnitInterval(v) => (Real { bits: 0 }).at_most(v) && v.at_most(
                Real { bits: ONE },
            ),
            Demand::NoMoreThan { value, name, limit } => !limit.below(value),
            Demand::Between { value, low, high, range } => low.at_most(value) && value.at_most(high),
            Demand::CountBetween { value, low, high } => low <= value <= high,
        }
    }

    /// What the user is told where it does not hold.
    pub open spec fn complaint<S: Fn(Real) -> String>(self, show: S) -> Seq<char> {
        match self {
            Demand::Finite(v) => "must be finite, got "@ + given::words1(show, v),
            Demand::NonNegative(v) => "must be non-negative, got "@ + given::words1(show, v),
            Demand::Positive(v) => "must be > 0, got "@ + given::words1(show, v),
            Demand::AtLeastOne(n) => "must be at least 1, got "@ + text::decimal(n as nat),
            Demand::UnitInterval(v) => "must be in [0, 1], got "@ + given::words1(show, v),
            Demand::NoMoreThan { value, name, limit } => "must be ≤ "@ + name@ + " (got "@
                + given::words1(show, value) + " > "@ + given::words1(show, limit) + ")"@,
            Demand::Between { value, low, high, range } => "must be in "@ + range@ + ", got "@
                + given::words1(show, value),
            Demand::CountBetween { value, low, high } => "must be in ["@ + text::decimal(low as nat)
                + ", "@ + text::decimal(high as nat) + "], got "@ + text::decimal(value as nat),
        }
    }

    /// Whether it holds.
    pub fn is_met(&self) -> (r: bool)
        ensures
            r == self.met(),
    {
        match self {
            Demand::Finite(v) => v.is_finite(),
            Demand::NonNegative(v) => (Real { bits: 0 }).le(*v),
            Demand::Positive(v) => (Real { bits: 0 }).lt(*v),
            Demand::AtLeastOne(n) => *n >= 1,
            Demand::UnitInterval(v) => (Real { bits: 0 }).le(*v) && v.le(Real { bits: ONE }),
            Demand::NoMoreThan { value, name: _, limit } => !limit.lt(*value),
            Demand::Between { value, low, high, range: _ } => low.le(*value) && value.le(*high),
            Demand::CountBetween { value, low, high } => *low <= *value && *value <= *high,
        }
    }

    /// What the user is told where it does not hold; `show` writes a number.
    pub fn complain<S: Fn(Real) -> String>(&self, show: &S) -> (s: String)
        requires
            given::worded1(*show),
        ensures
            s@ == self.complaint(*show),
    {
        match self {
            Demand::Finite(v) => worded("must be finite, got ", *v, show),
            Demand::NonNegative(v) => worded("must be non-negative, got ", *v, show),
            Demand::Positive(v) => worded("must be > 0, got ", *v, show),
            Demand::AtLeastOne(n) => {
                let mut s: String = "must be at least 1, got ".to_owned();
                text::push_decimal(&mut s, *n as u64);
                s
            },
            Demand::UnitInterval(v) => worded("must be in [0, 1], got ", *v, show),
            Demand::NoMoreThan { value, name, limit } => {
                let mut s: String = "must be ≤ ".to_owned();
                s.append(name);
                s.append(" (got ");
                s.append(show(*value).as_str());
                s.append(" > ");
                s.append(show(*limit).as_str());
                s.append(")");
                s
            },
            Demand::Between { value, low: _, high: _, range } => {
                let mut s: String = "must be in ".to_owned();
                s.append(range);
                s.append(", got ");
                s.append(show(*value).as_str());
                s
            },
            Demand::CountBetween { value, low, high } => {
                let mut s: String = "must be in [".to_owned();
                text::push_decimal(&mut s, *low as u64);
                s.append(", ");
                text::push_decimal(&mut s, *high as u64);
                s.append("], got ");
                text::push_decimal(&mut s, *value as u64);
                s
            },
        }
    }
}

/// `before`, and then the number as `show` writes it.
fn worded<S: Fn(Real) -> String>(before: &str, v: Real, show: &S) -> (s: String)
    requires
        given::worded1(*show),
    ensures
        s@ == before@ + given::words1(*show, v),
{
    let mut s: String = before.to_owned();
    s.append(show(v).as_str());
    s
}

/// A demand, and the field it is made of.
#[derive(Clone, Copy, Debug)]
pub struct Check {
    pub field: &'static str,
    pub demand: Demand,
}

/// Whether every demand holds.
pub open spec fn all_met(checks: Seq<Check>) -> bool {
    forall|i: int| 0 <= i < checks.len() ==> (#[trigger] checks[i]).demand.met()
}

/// Whether the demand at `i` is the first that does not hold.
pub open spec fn first_unmet(checks: Seq<Check>, i: int) -> bool {
    &&& 0 <= i < checks.len()
    &&& !checks[i].demand.met()
    &&& forall|j: int| 0 <= j < i ==> (#[trigger] checks[j]).demand.met()
}

/// A field with a value that is refused. A field of the boat has the prefix `boat.`,
/// so that the key can be found in a file of settings.
#[derive(Clone, Debug, PartialEq, Eq)]
pub struct ValidationError {
    pub field: &'static str,
    pub message: String,
}

impl ValidationError {
    /// Whether this tells of the first demand that does not hold.
    pub open spec fn tells<S: Fn(Real) -> String>(self, checks: Seq<Check>, show: S) -> bool {
        exists|i: int| #[trigger]
            first_unmet(checks, i) && self.field == checks[i].field && self.message@
                == checks[i].demand.complaint(show)
    }

    /// The error in words.
    pub open spec fn words(&self) -> Seq<char> {
        self.field@ + ": "@ + self.message@
    }

    /// The error in words.
    pub fn message(&self) -> (s: String)
        ensures
            s@ == self.words(),
    {
        let mut s: String = self.field.to_owned();
        s.append(": ");
        s.append(self.message.as_str());
        s
    }
}

/// Refuses the first field of which a demand does not hold.
fn require_all<S: Fn(Real) -> String>(checks: &Vec<Check>, show: &S) -> (r: Result<
    (),
    ValidationError,
>)
    requires
        given::worded1(*show),
    ensures
        r is Ok <==> all_met(checks@),
        r matches Err(e) ==> e.tells(checks@, *show),
{
    let mut i: usize = 0;
    while i < checks.len()
        invariant
            i <= checks@.len(),
            given::worded1(*show),
            forall|j: int| 0 <= j < i ==> (#[trigger] checks@[j]).demand.met(),
        decreases checks@.len() - i,
    {
        if !checks[i].demand.is_met() {
            let e = ValidationError {
                field: checks[i].field,
                message: checks[i].demand.complain(show),
            };
            assert(first_unmet(checks@, i as int));
            return Err(e);
        }
        i += 1;
    }
    Ok(())
}

/// What a search is set up with.
#[derive(Clone, Copy, Debug)]
pub struct SearchConfig {
    /// How many waypoints a path has, endpoints counted.
    pub waypoint_count: WaypointCount,
    /// What a second of travel costs.
    pub time_weight: Real,
    /// What a kilogram of fuel costs.
    pub fuel_weight: Real,
    /// What a metre over land costs; at 0, land is no hindrance.
    pub land_weight: Real,
    /// How many particles look for the shape of the route.
    pub particles_space: usize,
    /// How many particles look for its timing.
    pub particles_time: usize,
    /// How often the first are moved.
    pub iter_space: usize,
    /// How often the second are moved.
    pub iter_time: usize,
    /// The weight of a particle's earlier velocity.
    pub inertia: Real,
    /// How strongly a particle is drawn to its own best place.
    pub cognitive_coeff: Real,
    /// How strongly it is drawn to the best place of those it looks at.
    pub social_coeff: Real,
    /// How likely it is that a path is bent as a whole.
    pub path_kick_probability: Real,
    /// How far it is bent at first, as a fraction of the length of the route.
    pub path_kick_gamma_0_fraction: Real,
    /// How far it is bent at last.
    pub path_kick_gamma_min_fraction: Real,
    /// What the random numbers start from; fresh ones where there is none.
    pub seed: Option<u64>,
    /// The step along a segment, as a fraction of the diagonal of the search area.
    pub step_distance_fraction: Real,
    /// The cell of the wind grid in degrees.
    pub bake_step_deg: Real,
    /// The cell of the land grid in degrees.
    pub sdf_resolution_deg: Real,
    /// Samples along departure times in the table of segment times.
    pub range_k: usize,
    /// Samples along the throttle in that table.
    pub k_mcr: usize,
    /// Who a particle is drawn to.
    pub topology: Topology,
}

impl Default for SearchConfig {
    fn default() -> (c: Self)
        ensures
            c.waypoint_count == WaypointCount::N30,
            c.time_weight == (Real { bits: ONE }),
            c.fuel_weight == (Real { bits: TEN }),
            c.land_weight == (Real { bits: FIFTY }),
            c.particles_space == 80,
            c.particles_time == 40,
            c.iter_space == 60,
            c.iter_time == 30,
            c.inertia == (Real { bits: DEFAULT_INERTIA }),
            c.cognitive_coeff == (Real { bits: TWO }),
            c.social_coeff == (Real { bits: TWO }),
            c.path_kick_probability == (Real { bits: TENTH }),
            c.path_kick_gamma_0_fraction == (Real { bits: TWENTIETH }),
            c.path_kick_gamma_min_fraction == (Real { bits: DEFAULT_PATH_KICK_GAMMA_MIN }),
            c.seed is None,
            c.step_distance_fraction == (Real { bits: HUNDREDTH }),
            c.bake_step_deg == (Real { bits: QUARTER }),
            c.sdf_resolution_deg == (Real { bits: HALF }),
            c.range_k == 8,
            c.k_mcr == 8,
            c.topology == Topology::GBest,
            c.in_range(),
    {
        SearchConfig {
            waypoint_count: WaypointCount::N30,
            time_weight: Real { bits: ONE },
            fuel_weight: Real { bits: TEN },
            land_weight: Real { bits: FIFTY },
            particles_space: 80,
            particles_time: 40,
            iter_space: 60,
            iter_time: 30,
            inertia: Real { bits: DEFAULT_INERTIA },
            cognitive_coeff: Real { bits: TWO },
            social_coeff: Real { bits: TWO },
            path_kick_probability: Real { bits: TENTH },
            path_kick_gamma_0_fraction: Real { bits: TWENTIETH },
            path_kick_gamma_min_fraction: Real { bits: DEFAULT_PATH_KICK_GAMMA_MIN },
            seed: None,
            step_distance_fraction: Real { bits: HUNDREDTH },
            bake_step_deg: Real { bits: QUARTER },
            sdf_resolution_deg: Real { bits: HALF },
            range_k: 8,
            k_mcr: 8,
            topology: Topology::GBest,
        }
    }
}

impl SearchConfig {
    /// What is asked of the fields, in the order in which it is asked.
    pub open spec fn checks(self) -> Seq<Check> {
        seq![
            Check { field: "time_weight", demand: Demand::Finite(self.time_weight) },
            Check { field: "time_weight", demand: Demand::NonNegative(self.time_weight) },
            Check { field: "fuel_weight", demand: Demand::Finite(self.fuel_weight) },
            Check { field: "fuel_weight", demand: Demand::NonNegative(self.fuel_weight) },
            Check { field: "land_weight", demand: Demand::Finite(self.land_weight) },
            Check { field: "land_weight", demand: Demand::NonNegative(self.land_weight) },
            Check { field: "particles_space", demand: Demand::AtLeastOne(self.particles_space) },
            Check { field: "particles_time", demand: Demand::AtLeastOne(self.particles_time) },
            Check { field: "iter_space", demand: Demand::AtLeastOne(self.iter_space) },
            Check { field: "iter_time", demand: Demand::AtLeastOne(self.iter_time) },
            Check { field: "inertia", demand: Demand::Finite(self.inertia) },
            Check { field: "cognitive_coeff", demand: Demand::Finite(self.cognitive_coeff) },
            Check { field: "social_coeff", demand: Demand::Finite(self.social_coeff) },
            Check { field: "path_kick_probability", demand: Demand::Finite(self.path_kick_probability) },
            Check { field: "path_kick_probability", demand: Demand::UnitInterval(self.path_kick_probability) },
            Check { field: "path_kick_gamma_0_fraction", demand: Demand::Finite(self.path_kick_gamma_0_fraction) },
            Check { field: "path_kick_gamma_0_fraction", demand: Demand::NonNegative(self.path_kick_gamma_0_fraction) },
            Check { field: "path_kick_gamma_min_fraction", demand: Demand::Finite(self.path_kick_gamma_min_fraction) },
            Check { field: "path_kick_gamma_min_fraction", demand: Demand::NonNegative(self.path_kick_gamma_min_fraction) },
            Check { field: "path_kick_gamma_min_fraction", demand: Demand::NoMoreThan { value: self.path_kick_gamma_min_fraction, name: "path_kick_gamma_0_fraction", limit: self.path_kick_gamma_0_fraction } },
            Check { field: "step_distance_fraction", demand: Demand::Finite(self.step_distance_fraction) },
            Check { field: "step_distance_fraction", demand: Demand::Positive(self.step_distance_fraction) },
            Check { field: "bake_step_deg", demand: Demand::Finite(self.bake_step_deg) },
            Check { field: "bake_step_deg", demand: Demand::Positive(self.bake_step_deg) },
            Check { field: "sdf_resolution_deg", demand: Demand::Finite(self.sdf_resolution_deg) },
            Check { field: "sdf_resolution_deg", demand: Demand::Positive(self.sdf_resolution_deg) },
            Check { field: "step_distance_fraction", demand: Demand::Between { value: self.step_distance_fraction, low: Real { bits: MILLIONTH }, high: Real { bits: ONE }, range: "[1e-6, 1.0]" } },
            Check { field: "bake_step_deg", demand: Demand::Between { value: self.bake_step_deg, low: Real { bits: THOUSANDTH }, high: Real { bits: TEN }, range: "[1e-3, 10.0]" } },
            Check { field: "sdf_resolution_deg", demand: Demand::Between { value: self.sdf_resolution_deg, low: Real { bits: TWENTIETH }, high: Real { bits: FIVE }, range: "[0.05, 5.0]" } },
            Check { field: "range_k", demand: Demand::CountBetween { value: self.range_k, low: 2, high: 256 } },
            Check { field: "k_mcr", demand: Demand::CountBetween { value: self.k_mcr, low: 2, high: 256 } },
        ]
    }

    /// Whether the search can be run.
    pub open spec fn in_range(self) -> bool {
        let zero = Real { bits: 0 };
        &&& self.time_weight.finite() && zero.at_most(self.time_weight)
        &&& self.fuel_weight.finite() && zero.at_most(self.fuel_weight)
        &&& self.land_weight.finite() && zero.at_most(self.land_weight)
        &&& self.particles_space >= 1 && self.particles_time >= 1
        &&& self.iter_space >= 1 && self.iter_time >= 1
        &&& self.inertia.finite() && self.cognitive_coeff.finite() && self.social_coeff.finite()
        &&& zero.at_most(self.path_kick_probability)
        &&& self.path_kick_probability.at_most(Real { bits: ONE })
        &&& zero.at_most(self.path_kick_gamma_min_fraction)
        &&& self.path_kick_gamma_min_fraction.at_most(self.path_kick_gamma_0_fraction)
        &&& self.path_kick_gamma_0_fraction.finite()
        &&& (Real { bits: MILLIONTH }).at_most(self.step_distance_fraction)
        &&& self.step_distance_fraction.at_most(Real { bits: ONE })
        &&& (Real { bits: THOUSANDTH }).at_most(self.bake_step_deg)
        &&& self.bake_step_deg.at_most(Real { bits: TEN })
        &&& (Real { bits: TWENTIETH }).at_most(self.sdf_resolution_deg)
        &&& self.sdf_resolution_deg.at_most(Real { bits: FIVE })
        &&& 2 <= self.range_k <= 256 && 2 <= self.k_mcr <= 256
    }

    /// What is asked of the fields, in the order in which it is asked.
    fn list_checks(&self) -> (checks: Vec<Check>)
        ensures
            checks@ == self.checks(),
    {
        let mut checks: Vec<Check> = Vec::new();
        checks.push(Check { field: "time_weight", demand: Demand::Finite(self.time_weight) });
        checks.push(Check { field: "time_weight", demand: Demand::NonNegative(self.time_weight) });
        checks.push(Check { field: "fuel_weight", demand: Demand::Finite(self.fuel_weight) });
        checks.push(Check { field: "fuel_weight", demand: Demand::NonNegative(self.fuel_weight) });
        checks.push(Check { field: "land_weight", demand: Demand::Finite(self.land_weight) });
        checks.push(Check { field: "land_weight", demand: Demand::NonNegative(self.land_weight) });
        checks.push(Check { field: "particles_space", demand: Demand::AtLeastOne(self.particles_space) });
        checks.push(Check { field: "particles_time", demand: Demand::AtLeastOne(self.particles_time) });
        checks.push(Check { field: "iter_space", demand: Demand::AtLeastOne(self.iter_space) });
        checks.push(Check { field: "iter_time", demand: Demand::AtLeastOne(self.iter_time) });
        checks.push(Check { field: "inertia", demand: Demand::Finite(self.inertia) });
        checks.push(Check { field: "cognitive_coeff", demand: Demand::Finite(self.cognitive_coeff) });
        checks.push(Check { field: "social_coeff", demand: Demand::Finite(self.social_coeff) });
        checks.push(Check { field: "path_kick_probability", demand: Demand::Finite(self.path_kick_probability) });
        checks.push(Check { field: "path_kick_probability", demand: Demand::UnitInterval(self.path_kick_probability) });
        checks.push(Check { field: "path_kick_gamma_0_fraction", demand: Demand::Finite(self.path_kick_gamma_0_fraction) });
        checks.push(Check { field: "path_kick_gamma_0_fraction", demand: Demand::NonNegative(self.path_kick_gamma_0_fraction) });
        checks.push(Check { field: "path_kick_gamma_min_fraction", demand: Demand::Finite(self.path_kick_gamma_min_fraction) });
        checks.push(Check { field: "path_kick_gamma_min_fraction", demand: Demand::NonNegative(self.path_kick_gamma_min_fraction) });
        checks.push(Check { field: "path_kick_gamma_min_fraction", demand: Demand::NoMoreThan { value: self.path_kick_gamma_min_fraction, name: "path_kick_gamma_0_fraction", limit: self.path_kick_gamma_0_fraction } });
        checks.push(Check { field: "step_distance_fraction", demand: Demand::Finite(self.step_distance_fraction) });
        checks.push(Check { field: "step_distance_fraction", demand: Demand::Positive(self.step_distance_fraction) });
        checks.push(Check { field: "bake_step_deg", demand: Demand::Finite(self.bake_step_deg) });
        checks.push(Check { field: "bake_step_deg", demand: Demand::Positive(self.bake_step_deg) });
        checks.push(Check { field: "sdf_resolution_deg", demand: Demand::Finite(self.sdf_resolution_deg) });
        checks.push(Check { field: "sdf_resolution_deg", demand: Demand::Positive(self.sdf_resolution_deg) });
        checks.push(Check { field: "step_distance_fraction", demand: Demand::Between { value: self.step_distance_fraction, low: Real { bits: MILLIONTH }, high: Real { bits: ONE }, range: "[1e-6, 1.0]" } });
        checks.push(Check { field: "bake_step_deg", demand: Demand::Between { value: self.bake_step_deg, low: Real { bits: THOUSANDTH }, high: Real { bits: TEN }, range: "[1e-3, 10.0]" } });
        checks.push(Check { field: "sdf_resolution_deg", demand: Demand::Between { value: self.sdf_resolution_deg, low: Real { bits: TWENTIETH }, high: Real { bits: FIVE }, range: "[0.05, 5.0]" } });
        checks.push(Check { field: "range_k", demand: Demand::CountBetween { value: self.range_k, low: 2, high: 256 } });
        checks.push(Check { field: "k_mcr", demand: Demand::CountBetween { value: self.k_mcr, low: 2, high: 256 } });
        checks
    }

    /// Refuses values with which a search would fail or give nonsense, and names the
    /// first field that has one; `show` writes a number.
    pub fn validate<S: Fn(Real) -> String>(&self, show: &S) -> (r: Result<(), ValidationError>)
        requires
            given::worded1(*show),
        ensures
            r is Ok <==> self.in_range(),
            r matches Err(e) ==> e.tells(self.checks(), *show),
    {
        let checks = self.list_checks();
        proof {
            law_search_checks(*self);
        }
        require_all(&checks, show)
    }
}

/// The demands on a search say what its range is.
pub proof fn law_search_checks(c: SearchConfig)
    ensures
        all_met(c.checks()) <==> c.in_range(),
{
    let s = c.checks();
    if all_met(s) {
        assert(s[0].demand.met());
        assert(s[1].demand.met());
        assert(s[2].demand.met());
        assert(s[3].demand.met());
        assert(s[4].demand.met());
        assert(s[5].demand.met());
        assert(s[6].demand.met());
        assert(s[7].demand.met());
        assert(s[8].demand.met());
        assert(s[9].demand.met());
        assert(s[10].demand.met());
        assert(s[11].demand.met());
        assert(s[12].demand.met());
        assert(s[13].demand.met());
        assert(s[14].demand.met());
        assert(s[15].demand.met());
        assert(s[16].demand.met());
        assert(s[17].demand.met());
        assert(s[18].demand.met());
        assert(s[19].demand.met());
        assert(s[20].demand.met());
        assert(s[21].demand.met());
        assert(s[22].demand.met());
        assert(s[23].demand.met());
        assert(s[24].demand.met());
        assert(s[25].demand.met());
        assert(s[26].demand.met());
        assert(s[27].demand.met());
        assert(s[28].demand.met());
        assert(s[29].demand.met());
        assert(s[30].demand.met());
    }
}

/// The boat, with its power in kilowatts.
#[derive(Clone, Copy, Debug)]
pub struct BoatConfig {
    /// The greatest lasting power of the engine in kilowatts.
    pub mcr_kw: Real,
    /// The drag of the hull.
    pub k: Real,
    /// The scale of the polar curve.
    pub polar_c: Real,
    /// The sharpness of the polar curve.
    pub polar_sin_power: Real,
    /// The first coefficient of fuel consumption.
    pub fuel_a: Real,
    /// The second coefficient of fuel consumption.
    pub fuel_b: Real,
    /// The third coefficient of fuel consumption.
    pub fuel_c: Real,
}

impl Default for BoatConfig {
    fn default() -> (c: Self)
        ensures
            c.mcr_kw == (Real { bits: DEFAULT_MCR_KW }),
            c.k == (Real { bits: DEFAULT_DRAG }),
            c.polar_c == (Real { bits: DEFAULT_POLAR }),
            c.polar_sin_power == (Real { bits: ONE }),
            c.fuel_a == (Real { bits: DEFAULT_FUEL_A }),
            c.fuel_b == (Real { bits: DEFAULT_FUEL_B }),
            c.fuel_c == (Real { bits: DEFAULT_FUEL_C }),
            c.in_range(),
    {
        BoatConfig {
            mcr_kw: Real { bits: DEFAULT_MCR_KW },
            k: Real { bits: DEFAULT_DRAG },
            polar_c: Real { bits: DEFAULT_POLAR },
            polar_sin_power: Real { bits: ONE },
            fuel_a: Real { bits: DEFAULT_FUEL_A },
            fuel_b: Real { bits: DEFAULT_FUEL_B },
            fuel_c: Real { bits: DEFAULT_FUEL_C },
        }
    }
}

impl BoatConfig {
    /// What is asked of the fields, in the order in which it is asked.
    pub open spec fn checks(self) -> Seq<Check> {
        seq![
            Check { field: "boat.mcr_kw", demand: Demand::Finite(self.mcr_kw) },
            Check { field: "boat.k", demand: Demand::Finite(self.k) },
            Check { field: "boat.polar_c", demand: Demand::Finite(self.polar_c) },
            Check { field: "boat.polar_sin_power", demand: Demand::Finite(self.polar_sin_power) },
            Check { field: "boat.fuel_a", demand: Demand::Finite(self.fuel_a) },
            Check { field: "boat.fuel_b", demand: Demand::Finite(self.fuel_b) },
            Check { field: "boat.fuel_c", demand: Demand::Finite(self.fuel_c) },
            Check { field: "boat.mcr_kw", demand: Demand::Positive(self.mcr_kw) },
        ]
    }

    /// Whether the boat can sail: all is finite, and the engine has power.
    pub open spec fn in_range(self) -> bool {
        &&& self.mcr_kw.finite() && (Real { bits: 0 }).below(self.mcr_kw)
        &&& self.k.finite()
        &&& self.polar_c.finite()
        &&& self.polar_sin_power.finite()
        &&& self.fuel_a.finite()
        &&& self.fuel_b.finite()
        &&& self.fuel_c.finite()
    }

    /// What is asked of the fields, in the order in which it is asked.
    fn list_checks(&self) -> (checks: Vec<Check>)
        ensures
            checks@ == self.checks(),
    {
        let mut checks: Vec<Check> = Vec::new();
        checks.push(Check { field: "boat.mcr_kw", demand: Demand::Finite(self.mcr_kw) });
        checks.push(Check { field: "boat.k", demand: Demand::Finite(self.k) });
        checks.push(Check { field: "boat.polar_c", demand: Demand::Finite(self.polar_c) });
        checks.push(Check { field: "boat.polar_sin_power", demand: Demand::Finite(self.polar_sin_power) });
        checks.push(Check { field: "boat.fuel_a", demand: Demand::Finite(self.fuel_a) });
        checks.push(Check { field: "boat.fuel_b", demand: Demand::Finite(self.fuel_b) });
        checks.push(Check { field: "boat.fuel_c", demand: Demand::Finite(self.fuel_c) });
        checks.push(Check { field: "boat.mcr_kw", demand: Demand::Positive(self.mcr_kw) });
        checks
    }

    /// Refuses a field that is infinite or NaN, and an engine without power, and names
    /// the first field; `show` writes a number.
    pub fn validate<S: Fn(Real) -> String>(&self, show: &S) -> (r: Result<(), ValidationError>)
        requires
            given::worded1(*show),
        ensures
            r is Ok <==> self.in_range(),
            r matches Err(e) ==> e.tells(self.checks(), *show),
    {
        let checks = self.list_checks();
        proof {
            law_boat_checks(*self);
        }
        require_all(&checks, show)
    }
}

/// The demands on a boat say what its range is.
pub proof fn law_boat_checks(c: BoatConfig)
    ensures
        all_met(c.checks()) <==> c.in_range(),
{
    let s = c.checks();
    if all_met(s) {
        assert(s[0].demand.met());
        assert(s[1].demand.met());
        assert(s[2].demand.met());
        assert(s[3].demand.met());
        assert(s[4].demand.met());
        assert(s[5].demand.met());
        assert(s[6].demand.met());
        assert(s[7].demand.met());
    }
}

/// What a search accepts: weights that are finite and not below zero, at least one particle and
/// one move of each kind, finite coefficients, a probability between 0 and 1, a bend that does
/// not grow, a step along a leg from a millionth to 1, wind cells from a thousandth of a
/// degree to 10, land cells from a twentieth of a degree to 5, and from 2 to 256 samples.
pub proof fn law_what_a_search_accepts(c: SearchConfig)
    ensures
        c.in_range() <==> {
            let zero = Real { bits: 0 };
            let one = Real { bits: 0x3FF0_0000_0000_0000 };
            &&& !c.time_weight.below(zero) && c.time_weight.finite()
            &&& !c.fuel_weight.below(zero) && c.fuel_weight.finite()
            &&& !c.land_weight.below(zero) && c.land_weight.finite()
            &&& c.particles_space > 0 && c.particles_time > 0 && c.iter_space > 0 && c.iter_time > 0
            &&& c.inertia.finite() && c.cognitive_coeff.finite() && c.social_coeff.finite()
            &&& !c.path_kick_probability.nan() && !c.path_kick_probability.below(zero)
                && !one.below(c.path_kick_probability)
            &&& c.path_kick_gamma_0_fraction.finite() && !c.path_kick_gamma_0_fraction.below(zero)
            &&& c.path_kick_gamma_min_fraction.finite() && !c.path_kick_gamma_min_fraction.below(
                zero,
            )
            &&& !c.path_kick_gamma_0_fraction.below(c.path_kick_gamma_min_fraction)
            &&& (Real { bits: 0x3EB0_C6F7_A0B5_ED8D }).at_most(c.step_distance_fraction)
                && c.step_distance_fraction.at_most(one)
            &&& (Real { bits: 0x3F50_624D_D2F1_A9FC }).at_most(c.bake_step_deg)
                && c.bake_step_deg.at_most(Real { bits: 0x4024_0000_0000_0000 })
            &&& (Real { bits: 0x3FA9_9999_9999_999A }).at_most(c.sdf_resolution_deg)
                && c.sdf_resolution_deg.at_most(Real { bits: 0x4014_0000_0000_0000 })
            &&& c.range_k >= 2 && c.range_k <= 256
            &&& c.k_mcr >= 2 && c.k_mcr <= 256
        },
{
}

/// What is accepted of a boat: all its numbers are finite, and the power of its engine is above
/// zero.
pub proof fn law_what_a_boat_accepts(c: BoatConfig)
    ensures
        c.in_range() <==> {
            &&& c.mcr_kw.bits > 0 && c.mcr_kw.bits < 0x7FF0_0000_0000_0000
            &&& c.k.finite() && c.polar_c.finite() && c.polar_sin_power.finite()
            &&& c.fuel_a.finite() && c.fuel_b.finite() && c.fuel_c.finite()
        },
{
}

/// A complaint is about the first demand that is not met.
pub proof fn law_first_complaint_comes_first(checks: Seq<Check>, i: int, j: int)
    requires
        first_unmet(checks, i),
        0 <= j < checks.len(),
        !checks[j].demand.met(),
    ensures
        i <= j,
        !all_met(checks),
{
}

/// The numbers that settings start from, by their patterns: each power of two is one exponent
/// from the next, and the others stand between the powers that they lie between.
pub proof fn law_patterns_of_numbers()
    ensures
        ONE == 0x3FF0_0000_0000_0000 && TWO == ONE + 0x10_0000_0000_0000 && HALF == ONE
            - 0x10_0000_0000_0000 && QUARTER == ONE - 0x20_0000_0000_0000,
        FIVE == 0x4014_0000_0000_0000 && TEN == FIVE + 0x10_0000_0000_0000,
        FIFTY == 0x4049_0000_0000_0000,
        TENTH == 0x3FB9_9999_9999_999A && TWENTIETH == TENTH - 0x10_0000_0000_0000,
        HUNDREDTH == 0x3F84_7AE1_47AE_147B && DEFAULT_PATH_KICK_GAMMA_MIN == HUNDREDTH
            - 0x10_0000_0000_0000,
        THOUSANDTH == 0x3F50_624D_D2F1_A9FC && MILLIONTH == 0x3EB0_C6F7_A0B5_ED8D,
        DEFAULT_INERTIA == 0x3FD5_1EB8_51EB_851F,
        DEFAULT_MCR_KW == 0x408F_4000_0000_0000 && DEFAULT_DRAG == DEFAULT_MCR_KW
            + 0x20_0000_0000_0000,
        DEFAULT_POLAR == 0x3FF8_0000_0000_0000,
        DEFAULT_FUEL_A == 0x3FB6_6666_6666_6666 && DEFAULT_FUEL_B == 0xBFAC_6A7E_F9DB_22D1
            && DEFAULT_FUEL_C == 0x3FA1_C432_CA57_A787,
        DEFAULT_FRAME_STEP_SECONDS == 0x4561_0000 && DEFAULT_GEN_SIZE == 0x4120_0000
            && DEFAULT_GEN_DENSITY == 0x3F00_0000 && DEFAULT_GEN_SPEED_MAX == 0x4315_0000,
{
}

} // verus!
