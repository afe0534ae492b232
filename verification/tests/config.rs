use bywind::config::{BoatConfig, GenerateConfig, SearchConfig, Topology, ValidationError};
use bywind::number::{Real, Real32};
use bywind::route::WaypointCount;

fn r64(v: f64) -> Real {
    Real { bits: v.to_bits() }
}

fn r32(v: f32) -> Real32 {
    Real32 { bits: v.to_bits() }
}

fn show(v: Real) -> String {
    format!("{}", f64::from_bits(v.bits))
}

fn refused(cfg: SearchConfig) -> ValidationError {
    cfg.validate(&show).expect_err("must be refused")
}

fn refused_boat(cfg: BoatConfig) -> ValidationError {
    cfg.validate(&show).expect_err("must be refused")
}

#[test]
fn search_config_default_validates_clean() {
    SearchConfig::default().validate(&show).expect("default must validate");
}

#[test]
fn boat_config_default_validates_clean() {
    BoatConfig::default().validate(&show).expect("default must validate");
}

#[test]
fn search_config_rejects_negative_weight() {
    let err = refused(SearchConfig { time_weight: r64(-1.0), ..SearchConfig::default() });
    assert_eq!(err.field, "time_weight");
}

#[test]
fn search_config_rejects_non_finite_weight() {
    let err = refused(SearchConfig { fuel_weight: r64(f64::NAN), ..SearchConfig::default() });
    assert_eq!(err.field, "fuel_weight");
}

#[test]
fn search_config_rejects_zero_particles() {
    let err = refused(SearchConfig { particles_space: 0, ..SearchConfig::default() });
    assert_eq!(err.field, "particles_space");
}

#[test]
fn search_config_rejects_zero_iterations() {
    let err = refused(SearchConfig { iter_time: 0, ..SearchConfig::default() });
    assert_eq!(err.field, "iter_time");
}

#[test]
fn search_config_rejects_non_finite_coefficient() {
    let err = refused(SearchConfig { inertia: r64(f64::INFINITY), ..SearchConfig::default() });
    assert_eq!(err.field, "inertia");
}

#[test]
fn boat_config_rejects_zero_mcr() {
    let err = refused_boat(BoatConfig { mcr_kw: r64(0.0), ..BoatConfig::default() });
    assert_eq!(err.field, "boat.mcr_kw");
}

#[test]
fn boat_config_rejects_negative_mcr() {
    let err = refused_boat(BoatConfig { mcr_kw: r64(-1.0), ..BoatConfig::default() });
    assert_eq!(err.field, "boat.mcr_kw");
}

#[test]
fn boat_config_rejects_non_finite_polar() {
    let err = refused_boat(BoatConfig { polar_c: r64(f64::NAN), ..BoatConfig::default() });
    assert_eq!(err.field, "boat.polar_c");
}

#[test]
fn validation_error_display_contains_field_and_message() {
    let err = refused(SearchConfig { time_weight: r64(-2.5), ..SearchConfig::default() });
    let s = err.message();
    assert!(s.contains("time_weight"));
    assert!(s.contains("-2.5"));
    assert_eq!(s, "time_weight: must be non-negative, got -2.5");
}

#[test]
fn search_config_rejects_tiny_step_distance_fraction() {
    let err =
        refused(SearchConfig { step_distance_fraction: r64(1e-300), ..SearchConfig::default() });
    assert_eq!(err.field, "step_distance_fraction");
}

#[test]
fn search_config_rejects_too_large_step_distance_fraction() {
    let err = refused(SearchConfig { step_distance_fraction: r64(2.0), ..SearchConfig::default() });
    assert_eq!(err.field, "step_distance_fraction");
}

#[test]
fn search_config_rejects_tiny_bake_step_deg() {
    let err = refused(SearchConfig { bake_step_deg: r64(1e-9), ..SearchConfig::default() });
    assert_eq!(err.field, "bake_step_deg");
}

#[test]
fn search_config_rejects_huge_sdf_resolution() {
    let err = refused(SearchConfig { sdf_resolution_deg: r64(100.0), ..SearchConfig::default() });
    assert_eq!(err.field, "sdf_resolution_deg");
}

#[test]
fn search_config_rejects_tiny_sdf_resolution() {
    let err = refused(SearchConfig { sdf_resolution_deg: r64(0.001), ..SearchConfig::default() });
    assert_eq!(err.field, "sdf_resolution_deg");
}

#[test]
fn search_config_rejects_huge_range_k() {
    let err = refused(SearchConfig { range_k: 10_000, ..SearchConfig::default() });
    assert_eq!(err.field, "range_k");
}

#[test]
fn search_config_rejects_huge_k_mcr() {
    let err = refused(SearchConfig { k_mcr: 10_000, ..SearchConfig::default() });
    assert_eq!(err.field, "k_mcr");
}

#[test]
fn every_complaint_is_worded() {
    let d = SearchConfig::default;
    let words = |cfg: SearchConfig| refused(cfg).message();
    assert_eq!(
        words(SearchConfig { inertia: r64(f64::INFINITY), ..d() }),
        "inertia: must be finite, got inf"
    );
    assert_eq!(words(SearchConfig { iter_space: 0, ..d() }), "iter_space: must be at least 1, got 0");
    assert_eq!(
        words(SearchConfig { path_kick_probability: r64(1.5), ..d() }),
        "path_kick_probability: must be in [0, 1], got 1.5"
    );
    assert_eq!(
        words(SearchConfig { path_kick_gamma_min_fraction: r64(0.5), ..d() }),
        "path_kick_gamma_min_fraction: must be ≤ path_kick_gamma_0_fraction (got 0.5 > 0.05)"
    );
    assert_eq!(
        words(SearchConfig { bake_step_deg: r64(0.0), ..d() }),
        "bake_step_deg: must be > 0, got 0"
    );
    assert_eq!(
        words(SearchConfig { step_distance_fraction: r64(2.0), ..d() }),
        "step_distance_fraction: must be in [1e-6, 1.0], got 2"
    );
    assert_eq!(
        words(SearchConfig { bake_step_deg: r64(11.0), ..d() }),
        "bake_step_deg: must be in [1e-3, 10.0], got 11"
    );
    assert_eq!(
        words(SearchConfig { sdf_resolution_deg: r64(0.01), ..d() }),
        "sdf_resolution_deg: must be in [0.05, 5.0], got 0.01"
    );
    assert_eq!(words(SearchConfig { range_k: 1, ..d() }), "range_k: must be in [2, 256], got 1");
}

#[test]
fn the_first_bad_field_is_named() {
    let err = refused(SearchConfig {
        k_mcr: 0,
        inertia: r64(f64::NAN),
        particles_time: 0,
        ..SearchConfig::default()
    });
    assert_eq!(err.field, "particles_time");
    let err = refused_boat(BoatConfig {
        mcr_kw: r64(-1.0),
        fuel_c: r64(f64::NEG_INFINITY),
        ..BoatConfig::default()
    });
    assert_eq!(err.field, "boat.fuel_c");
}

#[test]
fn the_edges_of_ranges_are_allowed() {
    let cfg = SearchConfig {
        time_weight: r64(-0.0),
        path_kick_probability: r64(1.0),
        path_kick_gamma_0_fraction: r64(0.25),
        path_kick_gamma_min_fraction: r64(0.25),
        step_distance_fraction: r64(1e-6),
        bake_step_deg: r64(1e-3),
        sdf_resolution_deg: r64(5.0),
        range_k: 2,
        k_mcr: 256,
        ..SearchConfig::default()
    };
    assert_eq!(cfg.validate(&show), Ok(()));
}

#[test]
fn defaults_are_the_documented_ones() {
    let c = SearchConfig::default();
    assert_eq!(c.waypoint_count, WaypointCount::N30);
    assert_eq!((c.time_weight, c.fuel_weight, c.land_weight), (r64(1.0), r64(10.0), r64(50.0)));
    assert_eq!((c.particles_space, c.particles_time, c.iter_space, c.iter_time), (80, 40, 60, 30));
    assert_eq!((c.inertia, c.cognitive_coeff, c.social_coeff), (r64(0.33), r64(2.0), r64(2.0)));
    assert_eq!(c.path_kick_probability, r64(0.1));
    assert_eq!(c.path_kick_gamma_0_fraction, r64(0.05));
    assert_eq!(c.path_kick_gamma_min_fraction, r64(0.005));
    assert_eq!(c.step_distance_fraction, r64(0.01));
    assert_eq!((c.bake_step_deg, c.sdf_resolution_deg), (r64(0.25), r64(0.5)));
    assert_eq!((c.range_k, c.k_mcr, c.seed), (8, 8, None));
    assert_eq!(c.topology, Topology::GBest);
    let b = BoatConfig::default();
    assert_eq!((b.mcr_kw, b.k, b.polar_c), (r64(1000.0), r64(4000.0), r64(1.5)));
    assert_eq!(b.polar_sin_power, r64(1.0));
    assert_eq!((b.fuel_a, b.fuel_b, b.fuel_c), (r64(0.0875), r64(-0.0555), r64(0.0347)));
    let g = GenerateConfig::default();
    assert_eq!((g.size_x, g.size_y, g.density), (r32(10.0), r32(10.0), r32(0.5)));
    assert_eq!((g.frame_count, g.step_seconds), (12, r32(3600.0)));
    assert_eq!((g.speed_min, g.speed_max), (r32(0.0), r32(149.0)));
}
