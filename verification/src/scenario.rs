//! What a user asks to be searched: settings that may each be left out.
//!
//! Several sets of settings are merged from left to right, and the result is put
//! over the settings that a run starts from.
use crate::config::{BoatConfig, SearchConfig, Topology};
use crate::given;
use crate::number::Real;
use vstd::prelude::*;
use vstd::string::*;

verus! {

/// What is over it, where that is set.
pub open spec fn either<T>(under: Option<T>, over: Option<T>) -> Option<T> {
    if over is Some {
        over
    } else {
        under
    }
}

/// What is set, or what was there.
pub open spec fn put<T>(set: Option<T>, was: T) -> T {
    match set {
        Some(v) => v,
        None => was,
    }
}

/// What is set, or what was there.
fn put_in<T: Copy>(set: Option<T>, was: T) -> (v: T)
    ensures
        v == put(set, was),
{
    match set {
        Some(v) => v,
        None => was,
    }
}

/// Where the search is made, and what it weighs.
#[derive(Clone, Debug)]
pub struct RunOverrides {
    /// The file that holds the wind.
    pub map: Option<String>,
    /// Longitude and latitude of the start.
    pub start: Option<[Real; 2]>,
    /// Longitude and latitude of the end.
    pub end: Option<[Real; 2]>,
    /// West, south, east and north of the search area.
    pub bounds: Option<[Real; 4]>,
    /// How many waypoints the route has.
    pub waypoints: Option<usize>,
    /// What a second of travel costs.
    pub time_weight: Option<Real>,
    /// What a kilogram of fuel costs.
    pub fuel_weight: Option<Real>,
    /// What a metre over land costs.
    pub land_weight: Option<Real>,
}

impl Default for RunOverrides {
    fn default() -> (o: Self)
        ensures
            o == RunOverrides::nothing(),
    {
        RunOverrides {
            map: None,
            start: None,
            end: None,
            bounds: None,
            waypoints: None,
            time_weight: None,
            fuel_weight: None,
            land_weight: None,
        }
    }
}

impl RunOverrides {
    /// No field set.
    pub open spec fn nothing() -> RunOverrides {
        RunOverrides {
            map: None,
            start: None,
            end: None,
            bounds: None,
            waypoints: None,
            time_weight: None,
            fuel_weight: None,
            land_weight: None,
        }
    }

    /// The fields of both; where both set one, that of `over`.
    pub open spec fn merged(self, over: RunOverrides) -> RunOverrides {
        RunOverrides {
            map: either(self.map, over.map),
            start: either(self.start, over.start),
            end: either(self.end, over.end),
            bounds: either(self.bounds, over.bounds),
            waypoints: either(self.waypoints, over.waypoints),
            time_weight: either(self.time_weight, over.time_weight),
            fuel_weight: either(self.fuel_weight, over.fuel_weight),
            land_weight: either(self.land_weight, over.land_weight),
        }
    }

    /// Takes over each field that `other` sets.
    pub fn merge_from(&mut self, other: Self)
        ensures
            *final(self) == old(self).merged(other),
    {
        if other.map.is_some() {
            self.map = other.map;
        }
        if other.start.is_some() {
            self.start = other.start;
        }
        if other.end.is_some() {
            self.end = other.end;
        }
        if other.bounds.is_some() {
            self.bounds = other.bounds;
        }
        if other.waypoints.is_some() {
            self.waypoints = other.waypoints;
        }
        if other.time_weight.is_some() {
            self.time_weight = other.time_weight;
        }
        if other.fuel_weight.is_some() {
            self.fuel_weight = other.fuel_weight;
        }
        if other.land_weight.is_some() {
            self.land_weight = other.land_weight;
        }
    }
}

/// The boat.
#[derive(Clone, Copy, Debug)]
pub struct BoatOverrides {
    pub mcr_kw: Option<Real>,
    pub k: Option<Real>,
    pub polar_c: Option<Real>,
    pub polar_sin_power: Option<Real>,
    pub fuel_a: Option<Real>,
    pub fuel_b: Option<Real>,
    pub fuel_c: Option<Real>,
}

impl Default for BoatOverrides {
    fn default() -> (o: Self)
        ensures
            o == BoatOverrides::nothing(),
    {
        BoatOverrides {
            mcr_kw: None,
            k: None,
            polar_c: None,
            polar_sin_power: None,
            fuel_a: None,
            fuel_b: None,
            fuel_c: None,
        }
    }
}

impl BoatOverrides {
    /// No field set.
    pub open spec fn nothing() -> BoatOverrides {
        BoatOverrides {
            mcr_kw: None,
            k: None,
            polar_c: None,
            polar_sin_power: None,
            fuel_a: None,
            fuel_b: None,
            fuel_c: None,
        }
    }

    /// The fields of both; where both set one, that of `over`.
    pub open spec fn merged(self, over: BoatOverrides) -> BoatOverrides {
        BoatOverrides {
            mcr_kw: either(self.mcr_kw, over.mcr_kw),
            k: either(self.k, over.k),
            polar_c: either(self.polar_c, over.polar_c),
            polar_sin_power: either(self.polar_sin_power, over.polar_sin_power),
            fuel_a: either(self.fuel_a, over.fuel_a),
            fuel_b: either(self.fuel_b, over.fuel_b),
            fuel_c: either(self.fuel_c, over.fuel_c),
        }
    }

    /// Takes over each field that `other` sets.
    pub fn merge_from(&mut self, other: Self)
        ensures
            *final(self) == old(self).merged(other),
    {
        if other.mcr_kw.is_some() {
            self.mcr_kw = other.mcr_kw;
        }
        if other.k.is_some() {
            self.k = other.k;
        }
        if other.polar_c.is_some() {
            self.polar_c = other.polar_c;
        }
        if other.polar_sin_power.is_some() {
            self.polar_sin_power = other.polar_sin_power;
        }
        if other.fuel_a.is_some() {
            self.fuel_a = other.fuel_a;
        }
        if other.fuel_b.is_some() {
            self.fuel_b = other.fuel_b;
        }
        if other.fuel_c.is_some() {
            self.fuel_c = other.fuel_c;
        }
    }

    /// The settings with each field that is set here put in.
    pub open spec fn applied(self, cfg: BoatConfig) -> BoatConfig {
        BoatConfig {
            mcr_kw: put(self.mcr_kw, cfg.mcr_kw),
            k: put(self.k, cfg.k),
            polar_c: put(self.polar_c, cfg.polar_c),
            polar_sin_power: put(self.polar_sin_power, cfg.polar_sin_power),
            fuel_a: put(self.fuel_a, cfg.fuel_a),
            fuel_b: put(self.fuel_b, cfg.fuel_b),
            fuel_c: put(self.fuel_c, cfg.fuel_c),
        }
    }

    /// Puts each field that is set here into the settings.
    pub fn apply_to(&self, cfg: &mut BoatConfig)
        ensures
            *final(cfg) == self.applied(*old(cfg)),
    {
        *cfg = BoatConfig {
            mcr_kw: put_in(self.mcr_kw, cfg.mcr_kw),
            k: put_in(self.k, cfg.k),
            polar_c: put_in(self.polar_c, cfg.polar_c),
            polar_sin_power: put_in(self.polar_sin_power, cfg.polar_sin_power),
            fuel_a: put_in(self.fuel_a, cfg.fuel_a),
            fuel_b: put_in(self.fuel_b, cfg.fuel_b),
            fuel_c: put_in(self.fuel_c, cfg.fuel_c),
        };
    }
}

/// How the swarm moves. Weights and waypoints are in [`RunOverrides`].
#[derive(Clone, Copy, Debug)]
pub struct SearchOverrides {
    pub particles_space: Option<usize>,
    pub particles_time: Option<usize>,
    pub iter_space: Option<usize>,
    pub iter_time: Option<usize>,
    pub inertia: Option<Real>,
    pub cognitive_coeff: Option<Real>,
    pub social_coeff: Option<Real>,
    pub path_kick_probability: Option<Real>,
    pub path_kick_gamma_0_fraction: Option<Real>,
    pub path_kick_gamma_min_fraction: Option<Real>,
    pub seed: Option<u64>,
    pub topology: Option<Topology>,
}

impl Default for SearchOverrides {
    fn default() -> (o: Self)
        ensures
            o == SearchOverrides::nothing(),
    {
        SearchOverrides {
            particles_space: None,
            particles_time: None,
            iter_space: None,
            iter_time: None,
            inertia: None,
            cognitive_coeff: None,
            social_coeff: None,
            path_kick_probability: None,
            path_kick_gamma_0_fraction: None,
            path_kick_gamma_min_fraction: None,
            seed: None,
            topology: None,
        }
    }
}

impl SearchOverrides {
    /// No field set.
    pub open spec fn nothing() -> SearchOverrides {
        SearchOverrides {
            particles_space: None,
            particles_time: None,
            iter_space: None,
            iter_time: None,
            inertia: None,
            cognitive_coeff: None,
            social_coeff: None,
            path_kick_probability: None,
            path_kick_gamma_0_fraction: None,
            path_kick_gamma_min_fraction: None,
            seed: None,
            topology: None,
        }
    }

    /// The fields of both; where both set one, that of `over`.
    pub open spec fn merged(self, over: SearchOverrides) -> SearchOverrides {
        SearchOverrides {
            particles_space: either(self.particles_space, over.particles_space),
            particles_time: either(self.particles_time, over.particles_time),
            iter_space: either(self.iter_space, over.iter_space),
            iter_time: either(self.iter_time, over.iter_time),
            inertia: either(self.inertia, over.inertia),
            cognitive_coeff: either(self.cognitive_coeff, over.cognitive_coeff),
            social_coeff: either(self.social_coeff, over.social_coeff),
            path_kick_probability: either(self.path_kick_probability, over.path_kick_probability),
            path_kick_gamma_0_fraction: either(self.path_kick_gamma_0_fraction, over.path_kick_gamma_0_fraction),
            path_kick_gamma_min_fraction: either(self.path_kick_gamma_min_fraction, over.path_kick_gamma_min_fraction),
            seed: either(self.seed, over.seed),
            topology: either(self.topology, over.topology),
        }
    }

    /// Takes over each field that `other` sets.
    pub fn merge_from(&mut self, other: Self)
        ensures
            *final(self) == old(self).merged(other),
    {
        if other.particles_space.is_some() {
            self.particles_space = other.particles_space;
        }
        if other.particles_time.is_some() {
            self.particles_time = other.particles_time;
        }
        if other.iter_space.is_some() {
            self.iter_space = other.iter_space;
        }
        if other.iter_time.is_some() {
            self.iter_time = other.iter_time;
        }
        if other.inertia.is_some() {
            self.inertia = other.inertia;
        }
        if other.cognitive_coeff.is_some() {
            self.cognitive_coeff = other.cognitive_coeff;
        }
        if other.social_coeff.is_some() {
            self.social_coeff = other.social_coeff;
        }
        if other.path_kick_probability.is_some() {
            self.path_kick_probability = other.path_kick_probability;
        }
        if other.path_kick_gamma_0_fraction.is_some() {
            self.path_kick_gamma_0_fraction = other.path_kick_gamma_0_fraction;
        }
        if other.path_kick_gamma_min_fraction.is_some() {
            self.path_kick_gamma_min_fraction = other.path_kick_gamma_min_fraction;
        }
        if other.seed.is_some() {
            self.seed = other.seed;
        }
        if other.topology.is_some() {
            self.topology = other.topology;
        }
    }

    /// The settings with each field that is set here put in.
    pub open spec fn applied(self, cfg: SearchConfig) -> SearchConfig {
        SearchConfig {
            waypoint_count: cfg.waypoint_count,
            time_weight: cfg.time_weight,
            fuel_weight: cfg.fuel_weight,
            land_weight: cfg.land_weight,
            particles_space: put(self.particles_space, cfg.particles_space),
            particles_time: put(self.particles_time, cfg.particles_time),
            iter_space: put(self.iter_space, cfg.iter_space),
            iter_time: put(self.iter_time, cfg.iter_time),
            inertia: put(self.inertia, cfg.inertia),
            cognitive_coeff: put(self.cognitive_coeff, cfg.cognitive_coeff),
            social_coeff: put(self.social_coeff, cfg.social_coeff),
            path_kick_probability: put(self.path_kick_probability, cfg.path_kick_probability),
            path_kick_gamma_0_fraction: put(self.path_kick_gamma_0_fraction, cfg.path_kick_gamma_0_fraction),
            path_kick_gamma_min_fraction: put(self.path_kick_gamma_min_fraction, cfg.path_kick_gamma_min_fraction),
            seed: either(cfg.seed, self.seed),
            step_distance_fraction: cfg.step_distance_fraction,
            bake_step_deg: cfg.bake_step_deg,
            sdf_resolution_deg: cfg.sdf_resolution_deg,
            range_k: cfg.range_k,
            k_mcr: cfg.k_mcr,
            topology: put(self.topology, cfg.topology),
        }
    }

    /// Puts each field that is set here into the settings.
    pub fn apply_to(&self, cfg: &mut SearchConfig)
        ensures
            *final(cfg) == self.applied(*old(cfg)),
    {
        *cfg = SearchConfig {
            waypoint_count: cfg.waypoint_count,
            time_weight: cfg.time_weight,
            fuel_weight: cfg.fuel_weight,
            land_weight: cfg.land_weight,
            particles_space: put_in(self.particles_space, cfg.particles_space),
            particles_time: put_in(self.particles_time, cfg.particles_time),
            iter_space: put_in(self.iter_space, cfg.iter_space),
            iter_time: put_in(self.iter_time, cfg.iter_time),
            inertia: put_in(self.inertia, cfg.inertia),
            cognitive_coeff: put_in(self.cognitive_coeff, cfg.cognitive_coeff),
            social_coeff: put_in(self.social_coeff, cfg.social_coeff),
            path_kick_probability: put_in(self.path_kick_probability, cfg.path_kick_probability),
            path_kick_gamma_0_fraction: put_in(self.path_kick_gamma_0_fraction, cfg.path_kick_gamma_0_fraction),
            path_kick_gamma_min_fraction: put_in(self.path_kick_gamma_min_fraction, cfg.path_kick_gamma_min_fraction),
            seed: if self.seed.is_some() {
                self.seed
            } else {
                cfg.seed
            },
            step_distance_fraction: cfg.step_distance_fraction,
            bake_step_deg: cfg.bake_step_deg,
            sdf_resolution_deg: cfg.sdf_resolution_deg,
            range_k: cfg.range_k,
            k_mcr: cfg.k_mcr,
            topology: put_in(self.topology, cfg.topology),
        };
    }
}

/// What a study does with a coefficient.
#[derive(Clone, Copy, Debug, PartialEq, Eq, Structural)]
#[allow(inconsistent_fields)]
pub enum TuneSlot {
    /// Every trial has this value.
    Pinned(Real),
    /// A trial has a value from this range.
    Range { min: Real, max: Real },
}

/// Why a coefficient is refused.
#[derive(Clone, Debug, PartialEq, Eq)]
#[allow(inconsistent_fields)]
pub enum TuneValidationError {
    /// The value is infinite or NaN.
    NonFinitePinned { name: String, value: Real },
    /// The value is below 0.
    NegativePinned { name: String, value: Real },
    /// An end of the range is infinite or NaN.
    NonFiniteRange { name: String, min: Real, max: Real },
    /// The range begins below 0.
    NegativeRangeMin { name: String, min: Real },
    /// The range ends where it begins, or before.
    InvertedRange { name: String, min: Real, max: Real },
}

impl TuneValidationError {
    /// The error in words.
    pub open spec fn words<S: Fn(Real) -> String>(&self, show: S) -> Seq<char> {
        match self {
            TuneValidationError::NonFinitePinned { name, value } => "tune."@ + name@
                + ": pinned value must be finite, got "@ + given::words1(show, *value),
            TuneValidationError::NegativePinned { name, value } => "tune."@ + name@
                + ": pinned value must be non-negative, got "@ + given::words1(show, *value),
            TuneValidationError::NonFiniteRange { name, min, max } => "tune."@ + name@
                + ": range bounds must be finite, got ["@ + given::words1(show, *min) + ", "@
                + given::words1(show, *max) + "]"@,
            TuneValidationError::NegativeRangeMin { name, min } => "tune."@ + name@
                + ": range min must be non-negative, got "@ + given::words1(show, *min),
            TuneValidationError::InvertedRange { name, min, max } => "tune."@ + name@
                + ": range min="@ + given::words1(show, *min) + " must be strictly less than max="@
                + given::words1(show, *max),
        }
    }

    /// The error in words; `show` writes a number.
    pub fn message<S: Fn(Real) -> String>(&self, show: &S) -> (s: String)
        requires
            given::worded1(*show),
        ensures
            s@ == self.words(*show),
    {
        let mut s: String = "tune.".to_owned();
        match self {
            TuneValidationError::NonFinitePinned { name, value } => {
                s.append(name.as_str());
                s.append(": pinned value must be finite, got ");
                s.append(show(*value).as_str());
            },
            TuneValidationError::NegativePinned { name, value } => {
                s.append(name.as_str());
                s.append(": pinned value must be non-negative, got ");
                s.append(show(*value).as_str());
            },
            TuneValidationError::NonFiniteRange { name, min, max } => {
                s.append(name.as_str());
                s.append(": range bounds must be finite, got [");
                s.append(show(*min).as_str());
                s.append(", ");
                s.append(show(*max).as_str());
                s.append("]");
            },
            TuneValidationError::NegativeRangeMin { name, min } => {
                s.append(name.as_str());
                s.append(": range min must be non-negative, got ");
                s.append(show(*min).as_str());
            },
            TuneValidationError::InvertedRange { name, min, max } => {
                s.append(name.as_str());
                s.append(": range min=");
                s.append(show(*min).as_str());
                s.append(" must be strictly less than max=");
                s.append(show(*max).as_str());
            },
        }
        s
    }
}

impl TuneSlot {
    /// Whether a study can use it: it is finite, nowhere below 0, and a range is not empty.
    pub open spec fn sound(self) -> bool {
        match self {
            TuneSlot::Pinned(value) => value.finite() && (Real { bits: 0 }).at_most(value),
            TuneSlot::Range { min, max } => min.finite() && max.finite() && (Real {
                bits: 0,
            }).at_most(min) && min.below(max),
        }
    }

    /// Whether `e` tells why it cannot be used: that it is not finite before that it
    /// is below 0, and that before an empty range.
    pub open spec fn refused(self, name: Seq<char>, e: TuneValidationError) -> bool {
        match self {
            TuneSlot::Pinned(v) => {
                ||| !v.finite() && (e matches TuneValidationError::NonFinitePinned { name: n, value }
                    && n@ == name && value == v)
                ||| v.finite() && v.below(Real { bits: 0 }) && (
                e matches TuneValidationError::NegativePinned { name: n, value } && n@ == name
                    && value == v)
            },
            TuneSlot::Range { min: low, max: high } => {
                let finite = low.finite() && high.finite();
                let negative = low.below(Real { bits: 0 });
                ||| !finite && (e matches TuneValidationError::NonFiniteRange { name: n, min, max }
                    && n@ == name && min == low && max == high)
                ||| finite && negative && (e matches TuneValidationError::NegativeRangeMin {
                    name: n,
                    min,
                } && n@ == name && min == low)
                ||| finite && !negative && high.at_most(low) && (
                e matches TuneValidationError::InvertedRange { name: n, min, max } && n@ == name
                    && min == low && max == high)
            },
        }
    }

    /// Refuses a value or a range that no study can use; `name` is the coefficient.
    pub fn validate(&self, name: &str) -> (r: Result<(), TuneValidationError>)
        ensures
            r is Ok <==> self.sound(),
            r matches Err(e) ==> self.refused(name@, e),
    {
        match *self {
            TuneSlot::Pinned(value) => {
                if !value.is_finite() {
                    return Err(
                        TuneValidationError::NonFinitePinned { name: name.to_owned(), value },
                    );
                }
                if value.lt(Real { bits: 0 }) {
                    return Err(
                        TuneValidationError::NegativePinned { name: name.to_owned(), value },
                    );
                }
            },
            TuneSlot::Range { min, max } => {
                if !min.is_finite() || !max.is_finite() {
                    return Err(
                        TuneValidationError::NonFiniteRange { name: name.to_owned(), min, max },
                    );
                }
                if min.lt(Real { bits: 0 }) {
                    return Err(
                        TuneValidationError::NegativeRangeMin { name: name.to_owned(), min },
                    );
                }
                if max.le(min) {
                    return Err(
                        TuneValidationError::InvertedRange { name: name.to_owned(), min, max },
                    );
                }
            },
        }
        Ok(())
    }
}

/// What a study does with each coefficient.
#[derive(Clone, Copy, Debug)]
pub struct TuneOverrides {
    pub inertia: Option<TuneSlot>,
    pub cognitive_coeff: Option<TuneSlot>,
    pub social_coeff: Option<TuneSlot>,
    pub path_kick_probability: Option<TuneSlot>,
    pub path_kick_gamma_0_fraction: Option<TuneSlot>,
    pub path_kick_decay_ratio: Option<TuneSlot>,
}

impl Default for TuneOverrides {
    fn default() -> (o: Self)
        ensures
            o == TuneOverrides::nothing(),
    {
        TuneOverrides {
            inertia: None,
            cognitive_coeff: None,
            social_coeff: None,
            path_kick_probability: None,
            path_kick_gamma_0_fraction: None,
            path_kick_decay_ratio: None,
        }
    }
}

impl TuneOverrides {
    /// No field set.
    pub open spec fn nothing() -> TuneOverrides {
        TuneOverrides {
            inertia: None,
            cognitive_coeff: None,
            social_coeff: None,
            path_kick_probability: None,
            path_kick_gamma_0_fraction: None,
            path_kick_decay_ratio: None,
        }
    }

    /// The fields of both; where both set one, that of `over`.
    pub open spec fn merged(self, over: TuneOverrides) -> TuneOverrides {
        TuneOverrides {
            inertia: either(self.inertia, over.inertia),
            cognitive_coeff: either(self.cognitive_coeff, over.cognitive_coeff),
            social_coeff: either(self.social_coeff, over.social_coeff),
            path_kick_probability: either(self.path_kick_probability, over.path_kick_probability),
            path_kick_gamma_0_fraction: either(self.path_kick_gamma_0_fraction, over.path_kick_gamma_0_fraction),
            path_kick_decay_ratio: either(self.path_kick_decay_ratio, over.path_kick_decay_ratio),
        }
    }

    /// Takes over each field that `other` sets.
    pub fn merge_from(&mut self, other: Self)
        ensures
            *final(self) == old(self).merged(other),
    {
        if other.inertia.is_some() {
            self.inertia = other.inertia;
        }
        if other.cognitive_coeff.is_some() {
            self.cognitive_coeff = other.cognitive_coeff;
        }
        if other.social_coeff.is_some() {
            self.social_coeff = other.social_coeff;
        }
        if other.path_kick_probability.is_some() {
            self.path_kick_probability = other.path_kick_probability;
        }
        if other.path_kick_gamma_0_fraction.is_some() {
            self.path_kick_gamma_0_fraction = other.path_kick_gamma_0_fraction;
        }
        if other.path_kick_decay_ratio.is_some() {
            self.path_kick_decay_ratio = other.path_kick_decay_ratio;
        }
    }

    /// The coefficients with their names, in the order in which they are looked at.
    pub open spec fn slots(self) -> Seq<(&'static str, Option<TuneSlot>)> {
        seq![
            ("inertia", self.inertia),
            ("cognitive_coeff", self.cognitive_coeff),
            ("social_coeff", self.social_coeff),
            ("path_kick_probability", self.path_kick_probability),
            ("path_kick_gamma_0_fraction", self.path_kick_gamma_0_fraction),
            ("path_kick_decay_ratio", self.path_kick_decay_ratio),
        ]
    }

    /// Whether the coefficient at `i` is set and cannot be used.
    pub open spec fn unsound_at(self, i: int) -> bool {
        self.slots()[i].1 matches Some(slot) && !slot.sound()
    }

    /// Whether the coefficient at `i` is the first that cannot be used, and `e` tells why.
    pub open spec fn refused_at(self, i: int, e: TuneValidationError) -> bool {
        &&& 0 <= i < self.slots().len()
        &&& self.unsound_at(i)
        &&& forall|j: int| 0 <= j < i ==> !#[trigger] self.unsound_at(j)
        &&& self.slots()[i].1->0.refused(self.slots()[i].0@, e)
    }

    /// Refuses the first coefficient that no study can use.
    pub fn validate(&self) -> (r: Result<(), TuneValidationError>)
        ensures
            r is Ok <==> forall|i: int| 0 <= i < self.slots().len() ==> !#[trigger] self.unsound_at(i),
            r matches Err(e) ==> exists|i: int| #[trigger] self.refused_at(i, e),
    {
        let mut slots: Vec<(&'static str, Option<TuneSlot>)> = Vec::new();
        slots.push(("inertia", self.inertia));
        slots.push(("cognitive_coeff", self.cognitive_coeff));
        slots.push(("social_coeff", self.social_coeff));
        slots.push(("path_kick_probability", self.path_kick_probability));
        slots.push(("path_kick_gamma_0_fraction", self.path_kick_gamma_0_fraction));
        slots.push(("path_kick_decay_ratio", self.path_kick_decay_ratio));
        assert(slots@ =~= self.slots());
        let mut i: usize = 0;
        while i < slots.len()
            invariant
                i <= slots@.len(),
                slots@ == self.slots(),
                forall|j: int| 0 <= j < i ==> !#[trigger] self.unsound_at(j),
            decreases slots@.len() - i,
        {
            if let Some(slot) = slots[i].1 {
                if let Err(e) = slot.validate(slots[i].0) {
                    assert(self.unsound_at(i as int));
                    assert(self.refused_at(i as int, e));
                    return Err(e);
                }
            }
            i += 1;
        }
        Ok(())
    }
}

/// Everything that a user sets.
#[derive(Clone, Debug)]
pub struct CliConfigFile {
    pub run: RunOverrides,
    pub boat: BoatOverrides,
    pub search: SearchOverrides,
    pub tune: TuneOverrides,
}

impl Default for CliConfigFile {
    fn default() -> (f: Self)
        ensures
            f == CliConfigFile::nothing(),
    {
        CliConfigFile {
            run: RunOverrides::default(),
            boat: BoatOverrides::default(),
            search: SearchOverrides::default(),
            tune: TuneOverrides::default(),
        }
    }
}

impl CliConfigFile {
    /// No field set.
    pub open spec fn nothing() -> CliConfigFile {
        CliConfigFile {
            run: RunOverrides::nothing(),
            boat: BoatOverrides::nothing(),
            search: SearchOverrides::nothing(),
            tune: TuneOverrides::nothing(),
        }
    }

    /// The fields of both; where both set one, that of `over`.
    pub open spec fn merged(self, over: CliConfigFile) -> CliConfigFile {
        CliConfigFile {
            run: self.run.merged(over.run),
            boat: self.boat.merged(over.boat),
            search: self.search.merged(over.search),
            tune: self.tune.merged(over.tune),
        }
    }

    /// Takes over each field that `other` sets.
    pub fn merge_from(&mut self, other: Self)
        ensures
            *final(self) == old(self).merged(other),
    {
        self.run.merge_from(other.run);
        self.boat.merge_from(other.boat);
        self.search.merge_from(other.search);
        self.tune.merge_from(other.tune);
    }
}

/// Settings that set nothing change nothing, wherever they are merged in.
pub proof fn law_nothing_changes_nothing(a: CliConfigFile)
    ensures
        a.merged(CliConfigFile::nothing()) == a,
        CliConfigFile::nothing().merged(a) == a,
{
    assert(a.run.merged(RunOverrides::nothing()) == a.run);
    assert(a.boat.merged(BoatOverrides::nothing()) == a.boat);
    assert(a.search.merged(SearchOverrides::nothing()) == a.search);
    assert(a.tune.merged(TuneOverrides::nothing()) == a.tune);
    assert(RunOverrides::nothing().merged(a.run) == a.run);
    assert(BoatOverrides::nothing().merged(a.boat) == a.boat);
    assert(SearchOverrides::nothing().merged(a.search) == a.search);
    assert(TuneOverrides::nothing().merged(a.tune) == a.tune);
}

/// Merging the same settings again changes nothing.
pub proof fn law_merging_again(a: CliConfigFile, b: CliConfigFile)
    ensures
        a.merged(a) == a,
        a.merged(b).merged(b) == a.merged(b),
{
}

/// Where three are given, the last that is set counts.
proof fn lemma_either<T>(a: Option<T>, b: Option<T>, c: Option<T>)
    ensures
        either(either(a, b), c) == either(a, either(b, c)),
{
}

proof fn lemma_run_associates(a: RunOverrides, b: RunOverrides, c: RunOverrides)
    ensures
        a.merged(b).merged(c) == a.merged(b.merged(c)),
{
    lemma_either(a.map, b.map, c.map);
    lemma_either(a.start, b.start, c.start);
    lemma_either(a.end, b.end, c.end);
    lemma_either(a.bounds, b.bounds, c.bounds);
    lemma_either(a.waypoints, b.waypoints, c.waypoints);
    lemma_either(a.time_weight, b.time_weight, c.time_weight);
    lemma_either(a.fuel_weight, b.fuel_weight, c.fuel_weight);
    lemma_either(a.land_weight, b.land_weight, c.land_weight);
}

proof fn lemma_boat_associates(a: BoatOverrides, b: BoatOverrides, c: BoatOverrides)
    ensures
        a.merged(b).merged(c) == a.merged(b.merged(c)),
{
    lemma_either(a.mcr_kw, b.mcr_kw, c.mcr_kw);
    lemma_either(a.k, b.k, c.k);
    lemma_either(a.polar_c, b.polar_c, c.polar_c);
    lemma_either(a.polar_sin_power, b.polar_sin_power, c.polar_sin_power);
    lemma_either(a.fuel_a, b.fuel_a, c.fuel_a);
    lemma_either(a.fuel_b, b.fuel_b, c.fuel_b);
    lemma_either(a.fuel_c, b.fuel_c, c.fuel_c);
}

proof fn lemma_search_associates(a: SearchOverrides, b: SearchOverrides, c: SearchOverrides)
    ensures
        a.merged(b).merged(c) == a.merged(b.merged(c)),
{
    lemma_either(a.particles_space, b.particles_space, c.particles_space);
    lemma_either(a.particles_time, b.particles_time, c.particles_time);
    lemma_either(a.iter_space, b.iter_space, c.iter_space);
    lemma_either(a.iter_time, b.iter_time, c.iter_time);
    lemma_either(a.inertia, b.inertia, c.inertia);
    lemma_either(a.cognitive_coeff, b.cognitive_coeff, c.cognitive_coeff);
    lemma_either(a.social_coeff, b.social_coeff, c.social_coeff);
    lemma_either(a.path_kick_probability, b.path_kick_probability, c.path_kick_probability);
    lemma_either(a.path_kick_gamma_0_fraction, b.path_kick_gamma_0_fraction, c.path_kick_gamma_0_fraction);
    lemma_either(a.path_kick_gamma_min_fraction, b.path_kick_gamma_min_fraction, c.path_kick_gamma_min_fraction);
    lemma_either(a.seed, b.seed, c.seed);
    lemma_either(a.topology, b.topology, c.topology);
}

proof fn lemma_tune_associates(a: TuneOverrides, b: TuneOverrides, c: TuneOverrides)
    ensures
        a.merged(b).merged(c) == a.merged(b.merged(c)),
{
    lemma_either(a.inertia, b.inertia, c.inertia);
    lemma_either(a.cognitive_coeff, b.cognitive_coeff, c.cognitive_coeff);
    lemma_either(a.social_coeff, b.social_coeff, c.social_coeff);
    lemma_either(a.path_kick_probability, b.path_kick_probability, c.path_kick_probability);
    lemma_either(a.path_kick_gamma_0_fraction, b.path_kick_gamma_0_fraction, c.path_kick_gamma_0_fraction);
    lemma_either(a.path_kick_decay_ratio, b.path_kick_decay_ratio, c.path_kick_decay_ratio);
}

/// It does not matter which of several files are merged first, as long as their order stays.
pub proof fn law_merging_associates(a: CliConfigFile, b: CliConfigFile, c: CliConfigFile)
    ensures
        a.merged(b).merged(c) == a.merged(b.merged(c)),
{
    lemma_run_associates(a.run, b.run, c.run);
    lemma_boat_associates(a.boat, b.boat, c.boat);
    lemma_search_associates(a.search, b.search, c.search);
    lemma_tune_associates(a.tune, b.tune, c.tune);
}

/// Putting merged settings over a boat is putting one over it after the other.
pub proof fn law_merged_boats_apply_in_turn(a: BoatOverrides, b: BoatOverrides, cfg: BoatConfig)
    ensures
        a.merged(b).applied(cfg) == b.applied(a.applied(cfg)),
{
}

/// Putting merged settings over a search is putting one over it after the other.
pub proof fn law_merged_searches_apply_in_turn(
    a: SearchOverrides,
    b: SearchOverrides,
    cfg: SearchConfig,
)
    ensures
        a.merged(b).applied(cfg) == b.applied(a.applied(cfg)),
{
}

/// How the swarm moves has no say in the weights, the waypoints and the precision of a search.
pub proof fn law_swarm_leaves_the_rest(o: SearchOverrides, cfg: SearchConfig)
    ensures
        o.applied(cfg).waypoint_count == cfg.waypoint_count,
        o.applied(cfg).time_weight == cfg.time_weight,
        o.applied(cfg).fuel_weight == cfg.fuel_weight,
        o.applied(cfg).land_weight == cfg.land_weight,
        o.applied(cfg).step_distance_fraction == cfg.step_distance_fraction,
        o.applied(cfg).bake_step_deg == cfg.bake_step_deg,
        o.applied(cfg).sdf_resolution_deg == cfg.sdf_resolution_deg,
        o.applied(cfg).range_k == cfg.range_k,
        o.applied(cfg).k_mcr == cfg.k_mcr,
{
}

/// Where runs are set twice, what the later settings set holds, and what they do not set stays.
pub proof fn law_later_run_settings_win(a: RunOverrides, b: RunOverrides)
    ensures
        ({
            let m = a.merged(b);
            &&& b.map is Some ==> m.map == b.map
            &&& b.map is None ==> m.map == a.map
            &&& b.start is Some ==> m.start == b.start
            &&& b.start is None ==> m.start == a.start
            &&& b.end is Some ==> m.end == b.end
            &&& b.end is None ==> m.end == a.end
            &&& b.bounds is Some ==> m.bounds == b.bounds
            &&& b.bounds is None ==> m.bounds == a.bounds
            &&& b.waypoints is Some ==> m.waypoints == b.waypoints
            &&& b.waypoints is None ==> m.waypoints == a.waypoints
            &&& b.time_weight is Some ==> m.time_weight == b.time_weight
            &&& b.time_weight is None ==> m.time_weight == a.time_weight
            &&& b.fuel_weight is Some ==> m.fuel_weight == b.fuel_weight
            &&& b.fuel_weight is None ==> m.fuel_weight == a.fuel_weight
            &&& b.land_weight is Some ==> m.land_weight == b.land_weight
            &&& b.land_weight is None ==> m.land_weight == a.land_weight
        }),
{
}

/// Where boats are set twice, what the later settings set holds, and what they do not set stays.
pub proof fn law_later_boat_settings_win(a: BoatOverrides, b: BoatOverrides)
    ensures
        ({
            let m = a.merged(b);
            &&& b.mcr_kw is Some ==> m.mcr_kw == b.mcr_kw
            &&& b.mcr_kw is None ==> m.mcr_kw == a.mcr_kw
            &&& b.k is Some ==> m.k == b.k
            &&& b.k is None ==> m.k == a.k
            &&& b.polar_c is Some ==> m.polar_c == b.polar_c
            &&& b.polar_c is None ==> m.polar_c == a.polar_c
            &&& b.polar_sin_power is Some ==> m.polar_sin_power == b.polar_sin_power
            &&& b.polar_sin_power is None ==> m.polar_sin_power == a.polar_sin_power
            &&& b.fuel_a is Some ==> m.fuel_a == b.fuel_a
            &&& b.fuel_a is None ==> m.fuel_a == a.fuel_a
            &&& b.fuel_b is Some ==> m.fuel_b == b.fuel_b
            &&& b.fuel_b is None ==> m.fuel_b == a.fuel_b
            &&& b.fuel_c is Some ==> m.fuel_c == b.fuel_c
            &&& b.fuel_c is None ==> m.fuel_c == a.fuel_c
        }),
{
}

/// Where searches are set twice, what the later settings set holds, and what they do not set stays.
pub proof fn law_later_search_settings_win(a: SearchOverrides, b: SearchOverrides)
    ensures
        ({
            let m = a.merged(b);
            &&& b.particles_space is Some ==> m.particles_space == b.particles_space
            &&& b.particles_space is None ==> m.particles_space == a.particles_space
            &&& b.particles_time is Some ==> m.particles_time == b.particles_time
            &&& b.particles_time is None ==> m.particles_time == a.particles_time
            &&& b.iter_space is Some ==> m.iter_space == b.iter_space
            &&& b.iter_space is None ==> m.iter_space == a.iter_space
            &&& b.iter_time is Some ==> m.iter_time == b.iter_time
            &&& b.iter_time is None ==> m.iter_time == a.iter_time
            &&& b.inertia is Some ==> m.inertia == b.inertia
            &&& b.inertia is None ==> m.inertia == a.inertia
            &&& b.cognitive_coeff is Some ==> m.cognitive_coeff == b.cognitive_coeff
            &&& b.cognitive_coeff is None ==> m.cognitive_coeff == a.cognitive_coeff
            &&& b.social_coeff is Some ==> m.social_coeff == b.social_coeff
            &&& b.social_coeff is None ==> m.social_coeff == a.social_coeff
            &&& b.path_kick_probability is Some ==> m.path_kick_probability == b.path_kick_probability
            &&& b.path_kick_probability is None ==> m.path_kick_probability == a.path_kick_probability
            &&& b.path_kick_gamma_0_fraction is Some ==> m.path_kick_gamma_0_fraction == b.path_kick_gamma_0_fraction
            &&& b.path_kick_gamma_0_fraction is None ==> m.path_kick_gamma_0_fraction == a.path_kick_gamma_0_fraction
            &&& b.path_kick_gamma_min_fraction is Some ==> m.path_kick_gamma_min_fraction == b.path_kick_gamma_min_fraction
            &&& b.path_kick_gamma_min_fraction is None ==> m.path_kick_gamma_min_fraction == a.path_kick_gamma_min_fraction
            &&& b.seed is Some ==> m.seed == b.seed
            &&& b.seed is None ==> m.seed == a.seed
            &&& b.topology is Some ==> m.topology == b.topology
            &&& b.topology is None ==> m.topology == a.topology
        }),
{
}

/// Where tuning is set twice, what the later settings set holds, and what they do not set stays.
pub proof fn law_later_tune_settings_win(a: TuneOverrides, b: TuneOverrides)
    ensures
        ({
            let m = a.merged(b);
            &&& b.inertia is Some ==> m.inertia == b.inertia
            &&& b.inertia is None ==> m.inertia == a.inertia
            &&& b.cognitive_coeff is Some ==> m.cognitive_coeff == b.cognitive_coeff
            &&& b.cognitive_coeff is None ==> m.cognitive_coeff == a.cognitive_coeff
            &&& b.social_coeff is Some ==> m.social_coeff == b.social_coeff
            &&& b.social_coeff is None ==> m.social_coeff == a.social_coeff
            &&& b.path_kick_probability is Some ==> m.path_kick_probability == b.path_kick_probability
            &&& b.path_kick_probability is None ==> m.path_kick_probability == a.path_kick_probability
            &&& b.path_kick_gamma_0_fraction is Some ==> m.path_kick_gamma_0_fraction == b.path_kick_gamma_0_fraction
            &&& b.path_kick_gamma_0_fraction is None ==> m.path_kick_gamma_0_fraction == a.path_kick_gamma_0_fraction
            &&& b.path_kick_decay_ratio is Some ==> m.path_kick_decay_ratio == b.path_kick_decay_ratio
            &&& b.path_kick_decay_ratio is None ==> m.path_kick_decay_ratio == a.path_kick_decay_ratio
        }),
{
}

/// The settings of each part of a file are merged on their own.
pub proof fn law_parts_are_merged_apart(a: CliConfigFile, b: CliConfigFile)
    ensures
        a.merged(b).run == a.run.merged(b.run),
        a.merged(b).boat == a.boat.merged(b.boat),
        a.merged(b).search == a.search.merged(b.search),
        a.merged(b).tune == a.tune.merged(b.tune),
{
}

/// What is set of a boat is put into its numbers, and the others stay.
pub proof fn law_boat_settings_are_put_in(o: BoatOverrides, cfg: BoatConfig)
    ensures
        ({
            let c = o.applied(cfg);
            &&& c.mcr_kw == (match o.mcr_kw {
                Some(v) => v,
                None => cfg.mcr_kw,
            })
            &&& c.k == (match o.k {
                Some(v) => v,
                None => cfg.k,
            })
            &&& c.polar_c == (match o.polar_c {
                Some(v) => v,
                None => cfg.polar_c,
            })
            &&& c.polar_sin_power == (match o.polar_sin_power {
                Some(v) => v,
                None => cfg.polar_sin_power,
            })
            &&& c.fuel_a == (match o.fuel_a {
                Some(v) => v,
                None => cfg.fuel_a,
            })
            &&& c.fuel_b == (match o.fuel_b {
                Some(v) => v,
                None => cfg.fuel_b,
            })
            &&& c.fuel_c == (match o.fuel_c {
                Some(v) => v,
                None => cfg.fuel_c,
            })
        }),
{
}

/// What is set of a search is put into its numbers, and the others stay.
pub proof fn law_search_settings_are_put_in(o: SearchOverrides, cfg: SearchConfig)
    ensures
        ({
            let c = o.applied(cfg);
            &&& c.particles_space == (match o.particles_space {
                Some(v) => v,
                None => cfg.particles_space,
            })
            &&& c.particles_time == (match o.particles_time {
                Some(v) => v,
                None => cfg.particles_time,
            })
            &&& c.iter_space == (match o.iter_space {
                Some(v) => v,
                None => cfg.iter_space,
            })
            &&& c.iter_time == (match o.iter_time {
                Some(v) => v,
                None => cfg.iter_time,
            })
            &&& c.inertia == (match o.inertia {
                Some(v) => v,
                None => cfg.inertia,
            })
            &&& c.cognitive_coeff == (match o.cognitive_coeff {
                Some(v) => v,
                None => cfg.cognitive_coeff,
            })
            &&& c.social_coeff == (match o.social_coeff {
                Some(v) => v,
                None => cfg.social_coeff,
            })
            &&& c.path_kick_probability == (match o.path_kick_probability {
                Some(v) => v,
                None => cfg.path_kick_probability,
            })
            &&& c.path_kick_gamma_0_fraction == (match o.path_kick_gamma_0_fraction {
                Some(v) => v,
                None => cfg.path_kick_gamma_0_fraction,
            })
            &&& c.path_kick_gamma_min_fraction == (match o.path_kick_gamma_min_fraction {
                Some(v) => v,
                None => cfg.path_kick_gamma_min_fraction,
            })
            &&& o.seed is Some ==> c.seed == o.seed
            &&& o.seed is None ==> c.seed == cfg.seed
            &&& c.topology == (match o.topology {
                Some(v) => v,
                None => cfg.topology,
            })
        }),
{
}

/// A fixed value is sound where it is finite and not below zero; a range is where both its ends
/// would be and the first is below the second.
pub proof fn law_sound_slots(v: Real, min: Real, max: Real)
    ensures
        TuneSlot::Pinned(v).sound() <==> v.bits < 0x7FF0_0000_0000_0000 || v.bits
            == 0x8000_0000_0000_0000,
        (TuneSlot::Range { min, max }).sound() <==> TuneSlot::Pinned(min).sound() && TuneSlot::Pinned(
            max,
        ).sound() && min.below(max),
{
}

/// The slots are looked at in the order in which they are declared, each under its name.
pub proof fn law_slots_have_their_names(t: TuneOverrides)
    ensures
        t.slots().len() == 6,
        t.slots()[0].0@ == "inertia"@ && t.slots()[0].1 == t.inertia,
        t.slots()[1].0@ == "cognitive_coeff"@ && t.slots()[1].1 == t.cognitive_coeff,
        t.slots()[2].0@ == "social_coeff"@ && t.slots()[2].1 == t.social_coeff,
        t.slots()[3].0@ == "path_kick_probability"@ && t.slots()[3].1 == t.path_kick_probability,
        t.slots()[4].0@ == "path_kick_gamma_0_fraction"@ && t.slots()[4].1
            == t.path_kick_gamma_0_fraction,
        t.slots()[5].0@ == "path_kick_decay_ratio"@ && t.slots()[5].1 == t.path_kick_decay_ratio,
{
}

/// A slot is refused only where it is not sound.
pub proof fn law_refused_slots_are_not_sound(slot: TuneSlot, name: Seq<char>, e: TuneValidationError)
    requires
        slot.refused(name, e),
    ensures
        !slot.sound(),
{
}

/// A refusal tells the name of the slot and the numbers that it holds: of a fixed value that it is
/// not finite, or else that it is below zero; of a range that an end is not finite, or else that
/// its first is below zero, or else that its first is not below its second.
pub proof fn law_refusals_tell_what_is_held(slot: TuneSlot, name: Seq<char>, e: TuneValidationError)
    requires
        slot.refused(name, e),
    ensures
        match e {
            TuneValidationError::NonFinitePinned { name: n, value } => n@ == name && slot
                == TuneSlot::Pinned(value) && !value.finite(),
            TuneValidationError::NegativePinned { name: n, value } => n@ == name && slot
                == TuneSlot::Pinned(value) && value.finite() && value.below(Real { bits: 0 }),
            TuneValidationError::NonFiniteRange { name: n, min, max } => n@ == name && slot
                == (TuneSlot::Range { min, max }) && !(min.finite() && max.finite()),
            TuneValidationError::NegativeRangeMin { name: n, min } => n@ == name && (
            slot matches TuneSlot::Range { min: low, max: high } && low == min && low.finite()
                && high.finite() && low.below(Real { bits: 0 })),
            TuneValidationError::InvertedRange { name: n, min, max } => n@ == name && slot
                == (TuneSlot::Range { min, max }) && min.finite() && max.finite() && !min.below(
                Real { bits: 0 },
            ) && !min.below(max),
        },
{
}

/// Every slot that is not sound can be refused.
pub proof fn law_unsound_slots_are_refused(slot: TuneSlot, name: String)
    requires
        !slot.sound(),
    ensures
        exists|e: TuneValidationError| slot.refused(name@, e),
{
    match slot {
        TuneSlot::Pinned(value) => {
            if value.finite() {
                assert(slot.refused(name@, TuneValidationError::NegativePinned { name, value }));
            } else {
                assert(slot.refused(name@, TuneValidationError::NonFinitePinned { name, value }));
            }
        },
        TuneSlot::Range { min, max } => {
            if !(min.finite() && max.finite()) {
                assert(slot.refused(name@, TuneValidationError::NonFiniteRange { name, min, max }));
            } else if min.below(Real { bits: 0 }) {
                assert(slot.refused(name@, TuneValidationError::NegativeRangeMin { name, min }));
            } else {
                assert(slot.refused(name@, TuneValidationError::InvertedRange { name, min, max }));
            }
        },
    }
}

/// The coefficient that is refused is the first that is not sound.
pub proof fn law_first_unsound_slot_is_refused(t: TuneOverrides, i: int, e: TuneValidationError, j: int)
    requires
        t.refused_at(i, e),
        0 <= j < i,
    ensures
        0 <= i < 6,
        t.slots()[i].1 is Some && !t.slots()[i].1->0.sound(),
        t.slots()[j].1 is Some ==> t.slots()[j].1->0.sound(),
        t.slots()[i].1->0.refused(t.slots()[i].0@, e),
{
    assert(!t.unsound_at(j));
}

} // verus!
