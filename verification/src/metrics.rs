//! What each leg of a route costs.
use crate::given;
use crate::number::Real;
use vstd::prelude::*;

verus! {

/// What a leg costs.
#[derive(Clone, Copy, Debug)]
pub struct SegmentMetrics {
    /// The load of the engine between 0 and 1.
    pub mcr_01: Real,
    /// Kilograms of fuel.
    pub fuel: Real,
    /// Seconds of travel.
    pub time: Real,
    /// Kilometres per hour over ground; 0 where the leg takes no time.
    pub speed_kmh: Real,
    /// Metres over land; above 0 only where the route crosses land.
    pub land_metres: Real,
}

/// What a leg from `a` to `b` costs, of which load, fuel and time are known.
pub open spec fn leg<
    S: Fn((Real, Real), (Real, Real), Real) -> Real,
    L: Fn((Real, Real), (Real, Real)) -> Real,
>(raw: (Real, Real, Real), a: (Real, Real), b: (Real, Real), speed: S, land: L) -> SegmentMetrics {
    SegmentMetrics {
        mcr_01: raw.0,
        fuel: raw.1,
        time: raw.2,
        speed_kmh: if (Real { bits: 0 }).below(raw.2) {
            given::gives3(speed, a, b, raw.2)
        } else {
            Real { bits: 0 }
        },
        land_metres: given::gives2(land, a, b),
    }
}

/// What each leg of a path costs. `raw` holds the load, the fuel and the time of each;
/// `speed` tells the speed from one point to another in some time, and `land` how many
/// metres between two points lie over land.
pub fn compute_segment_metrics<
    S: Fn((Real, Real), (Real, Real), Real) -> Real,
    L: Fn((Real, Real), (Real, Real)) -> Real,
>(raw: &Vec<(Real, Real, Real)>, xs: &[Real], ys: &[Real], speed: &S, land: &L) -> (legs: Vec<
    SegmentMetrics,
>)
    requires
        raw@.len() < xs@.len(),
        raw@.len() < ys@.len(),
        given::settled3(*speed),
        given::settled2(*land),
    ensures
        legs@.len() == raw@.len(),
        forall|i: int|
            0 <= i < raw@.len() ==> #[trigger] legs@[i] == leg(
                raw@[i],
                (xs@[i], ys@[i]),
                (xs@[i + 1], ys@[i + 1]),
                *speed,
                *land,
            ),
{
    let mut legs: Vec<SegmentMetrics> = Vec::new();
    let mut i: usize = 0;
    while i < raw.len()
        invariant
            i <= raw@.len(),
            raw@.len() < xs@.len(),
            raw@.len() < ys@.len(),
            given::settled3(*speed),
            given::settled2(*land),
            legs@.len() == i,
            forall|j: int|
                0 <= j < i ==> #[trigger] legs@[j] == leg(
                    raw@[j],
                    (xs@[j], ys@[j]),
                    (xs@[j + 1], ys@[j + 1]),
                    *speed,
                    *land,
                ),
        decreases raw@.len() - i,
    {
        let (mcr_01, fuel, time): (Real, Real, Real) = raw[i];
        let a: (Real, Real) = (xs[i], ys[i]);
        let b: (Real, Real) = (xs[i + 1], ys[i + 1]);
        let speed_kmh: Real = if (Real { bits: 0 }).lt(time) {
            speed(a, b, time)
        } else {
            Real { bits: 0 }
        };
        legs.push(SegmentMetrics { mcr_01, fuel, time, speed_kmh, land_metres: land(a, b) });
        i += 1;
    }
    legs
}

/// A leg has the load, the fuel and the time told for it, and the metres over land between its
/// ends. Its speed is told by those ends and the time; a leg that takes no time has none.
pub proof fn law_parts_of_a_leg<
    S: Fn((Real, Real), (Real, Real), Real) -> Real,
    L: Fn((Real, Real), (Real, Real)) -> Real,
>(load: Real, fuel: Real, time: Real, a: (Real, Real), b: (Real, Real), speed: S, land: L)
    ensures
        ({
            let m = leg((load, fuel, time), a, b, speed, land);
            &&& m.mcr_01 == load
            &&& m.fuel == fuel
            &&& m.time == time
            &&& m.land_metres == given::gives2(land, a, b)
            &&& (Real { bits: 0 }).below(time) ==> m.speed_kmh == given::gives3(speed, a, b, time)
            &&& !(Real { bits: 0 }).below(time) ==> m.speed_kmh.bits == 0
        }),
{
}

} // verus!
