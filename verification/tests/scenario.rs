use bywind::config::{BoatConfig, SearchConfig, Topology};
use bywind::number::Real;
use bywind::scenario::{
    BoatOverrides, CliConfigFile, RunOverrides, SearchOverrides, TuneOverrides, TuneSlot,
    TuneValidationError,
};

fn r64(v: f64) -> Real {
    Real { bits: v.to_bits() }
}

fn num(v: Real) -> f64 {
    f64::from_bits(v.bits)
}

fn show(v: Real) -> String {
    format!("{}", num(v))
}

fn run(start: Option<[f64; 2]>, end: Option<[f64; 2]>, waypoints: Option<usize>) -> CliConfigFile {
    let point = |p: [f64; 2]| [r64(p[0]), r64(p[1])];
    CliConfigFile {
        run: RunOverrides {
            start: start.map(point),
            end: end.map(point),
            waypoints,
            ..Default::default()
        },
        ..Default::default()
    }
}

#[test]
fn merge_overrides_some_fields_only() {
    let mut merged = run(Some([1.0, 2.0]), None, Some(10));
    merged.merge_from(run(None, Some([3.0, 4.0]), Some(20)));
    assert_eq!(merged.run.start, Some([r64(1.0), r64(2.0)]));
    assert_eq!(merged.run.waypoints, Some(20));
    assert_eq!(merged.run.end, Some([r64(3.0), r64(4.0)]));
}

#[test]
fn merging_keeps_every_section() {
    let mut all = CliConfigFile {
        run: RunOverrides { map: Some("a.wcav".to_owned()), land_weight: Some(r64(1.0)), ..Default::default() },
        boat: BoatOverrides { k: Some(r64(2.0)), ..Default::default() },
        search: SearchOverrides { seed: Some(7), ..Default::default() },
        tune: TuneOverrides { inertia: Some(TuneSlot::Pinned(r64(0.5))), ..Default::default() },
    };
    all.merge_from(CliConfigFile::default());
    assert_eq!(all.run.map.as_deref(), Some("a.wcav"));
    assert_eq!(all.boat.k, Some(r64(2.0)));
    assert_eq!(all.search.seed, Some(7));
    assert_eq!(all.tune.inertia, Some(TuneSlot::Pinned(r64(0.5))));
    all.merge_from(CliConfigFile {
        boat: BoatOverrides { k: Some(r64(3.0)), ..Default::default() },
        ..Default::default()
    });
    assert_eq!(all.boat.k, Some(r64(3.0)));
    assert_eq!(all.run.land_weight, Some(r64(1.0)));
}

#[test]
fn boat_apply_to_only_writes_some_fields() {
    let overrides = BoatOverrides { mcr_kw: Some(r64(5000.0)), ..Default::default() };
    let mut cfg = BoatConfig::default();
    let baseline = cfg;
    overrides.apply_to(&mut cfg);
    assert!((num(cfg.mcr_kw) - 5000.0).abs() < 1e-9);
    assert!((num(cfg.k) - num(baseline.k)).abs() < 1e-9);
    assert!((num(cfg.polar_c) - num(baseline.polar_c)).abs() < 1e-9);
}

#[test]
fn tune_validate_rejects_inverted_range() {
    let slot = TuneSlot::Range { min: r64(1.0), max: r64(0.0) };
    let err = slot.validate("inertia").expect_err("inverted");
    assert!(matches!(
        &err,
        TuneValidationError::InvertedRange { name, min, max }
        if name == "inertia" && num(*min) == 1.0 && num(*max) == 0.0,
    ));
    assert_eq!(err.message(&show), "tune.inertia: range min=1 must be strictly less than max=0");
}

#[test]
fn tune_validate_rejects_non_finite_pinned() {
    let err = TuneSlot::Pinned(r64(f64::NAN)).validate("inertia").expect_err("NaN");
    assert!(matches!(
        &err,
        TuneValidationError::NonFinitePinned { name, value }
        if name == "inertia" && num(*value).is_nan(),
    ));
    assert_eq!(err.message(&show), "tune.inertia: pinned value must be finite, got NaN");
}

#[test]
fn tune_validate_rejects_negative_pinned() {
    let err = TuneSlot::Pinned(r64(-0.1)).validate("social_coeff").expect_err("negative");
    assert!(matches!(
        &err,
        TuneValidationError::NegativePinned { name, value }
        if name == "social_coeff" && num(*value) == -0.1,
    ));
    assert_eq!(err.message(&show), "tune.social_coeff: pinned value must be non-negative, got -0.1");
}

#[test]
fn tune_validate_looks_at_ranges() {
    let err = TuneSlot::Range { min: r64(f64::INFINITY), max: r64(1.0) }.validate("k").unwrap_err();
    assert_eq!(err.message(&show), "tune.k: range bounds must be finite, got [inf, 1]");
    let err = TuneSlot::Range { min: r64(-2.0), max: r64(1.0) }.validate("k").unwrap_err();
    assert_eq!(err.message(&show), "tune.k: range min must be non-negative, got -2");
    assert!(TuneSlot::Range { min: r64(1.0), max: r64(1.0) }.validate("k").is_err());
    assert!(TuneSlot::Range { min: r64(0.0), max: r64(1.0) }.validate("k").is_ok());
    assert!(TuneSlot::Pinned(r64(-0.0)).validate("k").is_ok());
}

#[test]
fn the_first_bad_coefficient_is_named() {
    let tune = TuneOverrides {
        inertia: Some(TuneSlot::Pinned(r64(0.5))),
        social_coeff: Some(TuneSlot::Pinned(r64(-1.0))),
        path_kick_decay_ratio: Some(TuneSlot::Pinned(r64(-2.0))),
        ..Default::default()
    };
    assert_eq!(
        tune.validate().unwrap_err().message(&show),
        "tune.social_coeff: pinned value must be non-negative, got -1"
    );
    assert_eq!(TuneOverrides::default().validate(), Ok(()));
}

#[test]
fn tune_overrides_merge_replaces_some_fields() {
    let mut base = TuneOverrides {
        inertia: Some(TuneSlot::Pinned(r64(0.2))),
        cognitive_coeff: Some(TuneSlot::Range { min: r64(0.0), max: r64(4.0) }),
        ..Default::default()
    };
    let on_top = TuneOverrides {
        inertia: Some(TuneSlot::Range { min: r64(0.0), max: r64(1.0) }),
        ..Default::default()
    };
    base.merge_from(on_top);
    assert_eq!(base.inertia, Some(TuneSlot::Range { min: r64(0.0), max: r64(1.0) }));
    assert_eq!(base.cognitive_coeff, Some(TuneSlot::Range { min: r64(0.0), max: r64(4.0) }));
}

#[test]
fn search_apply_to_writes_path_kick_fields() {
    let overrides = SearchOverrides {
        path_kick_probability: Some(r64(0.25)),
        path_kick_gamma_0_fraction: Some(r64(0.1)),
        path_kick_gamma_min_fraction: Some(r64(0.01)),
        ..Default::default()
    };
    let mut cfg = SearchConfig::default();
    overrides.apply_to(&mut cfg);
    assert!((num(cfg.path_kick_probability) - 0.25).abs() < 1e-12);
    assert!((num(cfg.path_kick_gamma_0_fraction) - 0.1).abs() < 1e-12);
    assert!((num(cfg.path_kick_gamma_min_fraction) - 0.01).abs() < 1e-12);
}

#[test]
fn search_apply_to_does_not_touch_weights() {
    let overrides = SearchOverrides {
        particles_space: Some(200),
        inertia: Some(r64(0.5)),
        ..Default::default()
    };
    let mut cfg = SearchConfig::default();
    let baseline = cfg;
    overrides.apply_to(&mut cfg);
    assert_eq!(cfg.particles_space, 200);
    assert!((num(cfg.inertia) - 0.5).abs() < 1e-9);
    assert!((num(cfg.time_weight) - num(baseline.time_weight)).abs() < 1e-9);
    assert!((num(cfg.fuel_weight) - num(baseline.fuel_weight)).abs() < 1e-9);
    assert!((num(cfg.land_weight) - num(baseline.land_weight)).abs() < 1e-9);
}

#[test]
fn merged_settings_apply_like_one_after_the_other() {
    let a = SearchOverrides {
        seed: Some(1),
        iter_time: Some(5),
        topology: Some(Topology::Ring),
        ..Default::default()
    };
    let b = SearchOverrides { seed: Some(2), iter_space: Some(9), ..Default::default() };
    let mut both = a;
    both.merge_from(b);
    let mut once = SearchConfig::default();
    both.apply_to(&mut once);
    let mut twice = SearchConfig::default();
    a.apply_to(&mut twice);
    b.apply_to(&mut twice);
    assert_eq!((once.seed, once.iter_time, once.iter_space), (Some(2), 5, 9));
    assert_eq!((once.seed, once.iter_time, once.iter_space), (twice.seed, twice.iter_time, twice.iter_space));
    assert_eq!(once.topology, Topology::Ring);
    assert_eq!(twice.topology, Topology::Ring);
}
