use bywind::fmt::{
    format_duration_breakdown, format_fitness_magnitude, format_fuel_auto, format_land_km,
    format_pso_delta,
};
use bywind::number::Real;

fn r64(v: f64) -> Real {
    Real { bits: v.to_bits() }
}

fn num(v: Real) -> f64 {
    f64::from_bits(v.bits)
}

fn duration(seconds: f64) -> String {
    format_duration_breakdown(seconds.max(0.0) as u64)
}

fn fuel(kg: f64) -> String {
    format_fuel_auto(
        r64(kg),
        &|v: Real| format!("{:.3}", num(v) / 1000.0),
        &|v: Real| format!("{:.2}", num(v)),
    )
}

fn fitness(value: f64) -> String {
    format_fitness_magnitude(
        r64(value),
        &|v: Real| format!("{:.3}", num(v) / 1_000_000.0),
        &|v: Real| format!("{:.3}", num(v) / 1_000.0),
    )
}

fn delta(pso: f64, bench: f64, larger_is_better: bool) -> String {
    format_pso_delta(
        r64(pso),
        r64(bench),
        larger_is_better,
        &|a: Real, b: Real| r64(num(a) - num(b)),
        &|a: Real, b: Real| format!("{:.1}", num(a) / num(b) * 100.0),
    )
}

#[test]
fn format_duration_breakdown_drops_leading_zero_units() {
    assert_eq!(duration(45.0), "45s");
    assert_eq!(duration(125.0), "2m 5s");
    assert_eq!(duration(3.0 * 3600.0 + 4.0), "3h 0m 4s");
    assert_eq!(duration(2.0 * 86_400.0 + 3.0 * 3600.0), "2d 3h 0m 0s");
    assert_eq!(duration(-5.0), "0s");
}

#[test]
fn format_fuel_auto_picks_unit_by_threshold() {
    assert_eq!(fuel(0.0), "0.00 kg");
    assert_eq!(fuel(999.99), "999.99 kg");
    assert_eq!(fuel(1000.0), "1.000 t");
    assert_eq!(fuel(12_345.0), "12.345 t");
}

#[test]
fn format_land_km_renders_metres_as_two_decimal_km() {
    let land = |m: f64| format_land_km(r64(m), &|v: Real| format!("{:.2}", num(v) / 1000.0));
    assert_eq!(land(0.0), "0.00 km");
    assert_eq!(land(1500.0), "1.50 km");
    assert_eq!(land(12_345.0), "12.35 km");
}

#[test]
fn format_fitness_magnitude_uses_m_above_one_million() {
    assert_eq!(fitness(-1_825_302.276_8), "1.825M");
    assert_eq!(fitness(-1_000_000.0), "1.000M");
    assert_eq!(fitness(-999_999.999), "1000.000K");
    assert_eq!(fitness(-173_235.238_9), "173.235K");
    assert_eq!(fitness(0.0), "0.000K");
}

#[test]
fn format_pso_delta_handles_signs_and_edges() {
    assert_eq!(delta(80.0, 100.0, false), "PSO 20.0% better");
    assert_eq!(delta(120.0, 100.0, false), "PSO 20.0% worse");
    assert_eq!(delta(1.2, 1.0, true), "PSO 20.0% better");
    assert_eq!(delta(100.0, 100.0, false), "PSO equal");
    assert_eq!(delta(50.0, 0.0, false), "PSO N/A");
}
