//! A saved route, and how it is brought back.
use crate::config::Topology;
use crate::number::Real;
use crate::route;
use crate::route::{copied, Found, Particle, RouteEvolution, WaypointCount};
use crate::text;
use vstd::prelude::*;
use vstd::string::*;

verus! {

/// The best path of a search, and what the search was set up with.
#[derive(Clone, Debug)]
pub struct SavedSolution {
    /// How many waypoints the path has.
    pub n: usize,
    /// Longitude of each waypoint in degrees.
    pub xs: Vec<Real>,
    /// Latitude of each waypoint in degrees.
    pub ys: Vec<Real>,
    /// Seconds for each waypoint.
    pub ts: Vec<Real>,
    /// How good the path is; higher is better.
    pub best_fit: Real,
    /// What a second of travel cost.
    pub time_weight: Real,
    /// What a kilogram of fuel cost.
    pub fuel_weight: Real,
    /// How many particles looked for the shape.
    pub particles_space: usize,
    /// How many particles looked for the timing.
    pub particles_time: usize,
    /// How often the first were moved.
    pub iter_space: usize,
    /// How often the second were moved.
    pub iter_time: usize,
    /// What the random numbers started from.
    pub seed: Option<u64>,
    /// Who a particle was drawn to.
    pub topology: Topology,
    /// How likely it was that a path was bent as a whole.
    pub path_kick_probability: Real,
    /// How far it was bent at first.
    pub path_kick_gamma_0_fraction: Real,
    /// How far it was bent at last.
    pub path_kick_gamma_min_fraction: Real,
}

/// Why a saved route cannot be brought back.
#[derive(Debug)]
pub enum LoadError {
    /// No search has so many waypoints.
    UnsupportedWaypointCount(usize),
    /// There are not as many numbers as waypoints.
    LengthMismatch { n: usize, xs: usize, ys: usize, ts: usize },
}

impl LoadError {
    /// The error in words.
    pub open spec fn words(&self) -> Seq<char> {
        match self {
            LoadError::UnsupportedWaypointCount(n) => "Unsupported waypoint count "@
                + text::decimal(*n as nat) + " in saved solution"@,
            LoadError::LengthMismatch { n, xs, ys, ts } => "Saved solution arrays do not match n="@
                + text::decimal(*n as nat) + ": xs="@ + text::decimal(*xs as nat) + ", ys="@
                + text::decimal(*ys as nat) + ", ts="@ + text::decimal(*ts as nat),
        }
    }

    /// The error in words.
    pub fn message(&self) -> (s: String)
        ensures
            s@ == self.words(),
    {
        match self {
            LoadError::UnsupportedWaypointCount(n) => {
                let mut s: String = "Unsupported waypoint count ".to_owned();
                text::push_decimal(&mut s, *n as u64);
                s.append(" in saved solution");
                s
            },
            LoadError::LengthMismatch { n, xs, ys, ts } => {
                let mut s: String = "Saved solution arrays do not match n=".to_owned();
                text::push_decimal(&mut s, *n as u64);
                s.append(": xs=");
                text::push_decimal(&mut s, *xs as u64);
                s.append(", ys=");
                text::push_decimal(&mut s, *ys as u64);
                s.append(", ts=");
                text::push_decimal(&mut s, *ts as u64);
                s
            },
        }
    }
}

impl SavedSolution {
    /// Whether a search can have so many waypoints.
    pub open spec fn supported(&self) -> bool {
        exists|wc: WaypointCount| #[trigger] wc.count() == self.n
    }

    /// The path.
    pub open spec fn path(&self) -> Found {
        Found { xs: self.xs@, ys: self.ys@, ts: self.ts@, best_fit: self.best_fit }
    }

    /// An evolution of one iteration with one particle, which has found the saved path.
    pub fn to_route_evolution(&self) -> (r: Result<(WaypointCount, RouteEvolution), LoadError>)
        ensures
            r is Ok <==> self.supported() && self.path().has(self.n as nat),
            r matches Ok((wc, e)) ==> wc.count() == self.n && e.wf() && e.waypoints() == wc && e.found()
                == seq![seq![self.path()]],
            r matches Err(LoadError::UnsupportedWaypointCount(n)) ==> !self.supported() && n
                == self.n,
            r matches Err(LoadError::LengthMismatch { n, xs, ys, ts }) ==> self.supported() && n
                == self.n && xs == self.xs@.len() && ys == self.ys@.len() && ts == self.ts@.len(),
    {
        let wc = match WaypointCount::from_usize(self.n) {
            Some(wc) => wc,
            None => {
                return Err(LoadError::UnsupportedWaypointCount(self.n));
            },
        };
        assert(wc.count() == self.n);
        if self.xs.len() != self.n || self.ys.len() != self.n || self.ts.len() != self.n {
            return Err(
                LoadError::LengthMismatch {
                    n: self.n,
                    xs: self.xs.len(),
                    ys: self.ys.len(),
                    ts: self.ts.len(),
                },
            );
        }
        let particle = Particle {
            xs: copied(self.xs.as_slice()),
            ys: copied(self.ys.as_slice()),
            ts: copied(self.ts.as_slice()),
            best_fit: self.best_fit,
        };
        let mut frame: Vec<Particle> = Vec::new();
        frame.push(particle);
        let mut frames: Vec<Vec<Particle>> = Vec::new();
        frames.push(frame);
        assert(particle@ == self.path());
        assert(route::found_in(frame@) =~= seq![self.path()]);
        assert(route::found_by(frames@) =~= seq![seq![self.path()]]);
        Ok((wc, RouteEvolution::from_frames(wc, frames)))
    }
}

/// Whatever iteration is asked for, the best path of what was brought back is the
/// one that was saved.
pub proof fn law_saved_path_comes_back(saved: SavedSolution, iter: nat)
    ensures
        ({
            let found = seq![seq![saved.path()]];
            route::gbest_place(found, iter as int) == Some((0int, 0int)) && route::path_at(
                found,
                (0int, 0int),
            ) == saved.path()
        }),
{
}

/// A search can have 5, 8, 10, 15, 20, 30, 40, 50 or 60 waypoints.
pub proof fn law_counts_that_are_supported(saved: SavedSolution)
    ensures
        saved.supported() <==> saved.n == 5 || saved.n == 8 || saved.n == 10 || saved.n == 15 || saved.n
            == 20 || saved.n == 30 || saved.n == 40 || saved.n == 50 || saved.n == 60,
        saved.path().has(saved.n as nat) <==> saved.xs@.len() == saved.n && saved.ys@.len() == saved.n
            && saved.ts@.len() == saved.n,
        saved.path().xs == saved.xs@,
        saved.path().ys == saved.ys@,
        saved.path().ts == saved.ts@,
        saved.path().best_fit == saved.best_fit,
{
    route::law_counts_are_as_named(saved.n as nat);
}

} // verus!
