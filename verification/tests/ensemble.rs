use bywind::bounds::LonLatBbox;
use bywind::config::EnsembleMode;
use bywind::ensemble::{
    discover, member_name, BakedEnsembleWindMap, EnsembleLoadError, TimedEnsembleWindMap,
};
use bywind::io;
use bywind::io_error::{IoError, IoErrorKind};
use bywind::number::{Real, Real32};
use bywind::search::WindInput;
use bywind::wind_map::baked::{BakeBounds, BakedWindMap, Wind};
use bywind::wind_map::{TimedWindMap, WindMap};

fn r64(v: f64) -> Real {
    Real { bits: v.to_bits() }
}

fn num(v: Real) -> f64 {
    f64::from_bits(v.bits)
}

fn show(v: Real32) -> String {
    format!("{}", f32::from_bits(v.bits))
}

fn names(list: &[&str]) -> Vec<String> {
    list.iter().map(|s| (*s).to_owned()).collect()
}

fn plus(a: Wind, b: Wind) -> Wind {
    Wind {
        east_mps: r64(num(a.east_mps) + num(b.east_mps)),
        north_mps: r64(num(a.north_mps) + num(b.north_mps)),
    }
}

fn share(a: Wind, n: usize) -> Wind {
    Wind { east_mps: r64(num(a.east_mps) / n as f64), north_mps: r64(num(a.north_mps) / n as f64) }
}

fn baked(east: f64, north: f64) -> BakedWindMap {
    let b = BakeBounds {
        bbox: LonLatBbox::new(r64(0.0), r64(1.0), r64(0.0), r64(1.0)),
        step: r64(1.0),
        coord_scale: r64(1.0),
    };
    let wind = Wind { east_mps: r64(east), north_mps: r64(north) };
    let map = TimedWindMap {
        step_seconds: Real32 { bits: 3600f32.to_bits() },
        crossfade_seconds: Real32 { bits: 18000f32.to_bits() },
        time_range: None,
        frames: vec![WindMap { layout: None, rows: vec![] }],
    };
    let widen = |x: Real32| r64(f64::from(f32::from_bits(x.bits)));
    BakedWindMap::from_timed_map(&map, b, &|_: BakeBounds| (2, 2), &widen, &|_: usize, _: usize, _: usize| wind)
}

fn timed_map() -> TimedWindMap {
    let frame = WindMap { layout: None, rows: Vec::new() };
    TimedWindMap::new(vec![frame], Real32 { bits: 3600.0f32.to_bits() }, &|s: Real32| s)
}

#[test]
fn members_keep_their_names() {
    let e = TimedEnsembleWindMap::from_members(vec![timed_map(), timed_map()], names(&["gec00", "gep01"]));
    assert_eq!(e.member_count(), 2);
    assert_eq!(e.members().len(), 2);
    assert_eq!(e.member_names(), &names(&["gec00", "gep01"]));
    let e = BakedEnsembleWindMap::from_members(vec![baked(1.0, 2.0)], names(&["gec00"]));
    assert_eq!(e.member_count(), 1);
    assert_eq!(e.member_names(), &names(&["gec00"]));
    assert_eq!(e.member(0).nx(), e.members()[0].nx());
}

#[test]
fn mean_averages_uv_components() {
    let e = BakedEnsembleWindMap::from_members(
        vec![baked(10.0, 0.0), baked(0.0, 10.0)],
        names(&["gec00", "gep01"]),
    );
    let mean = e.mean(&plus, &share);
    assert_eq!(
        (mean.nx(), mean.ny(), mean.nt()),
        (e.member(0).nx(), e.member(0).ny(), e.member(0).nt())
    );
    assert_eq!(mean.grid.len(), e.member(0).grid.len());
    for w in &mean.grid {
        assert_eq!((num(w.east_mps), num(w.north_mps)), (5.0, 5.0));
    }
}

#[test]
fn mean_of_identical_members_equals_any_member() {
    let e = BakedEnsembleWindMap::from_members(
        vec![baked(7.5, 4.5), baked(7.5, 4.5), baked(7.5, 4.5)],
        names(&["gec00", "gep01", "gep02"]),
    );
    let mean = e.mean(&plus, &share);
    for (i, sample) in mean.grid.iter().enumerate() {
        let expected = e.member(0).grid[i];
        assert!((num(sample.east_mps) - num(expected.east_mps)).abs() < 1e-9);
        assert!((num(sample.north_mps) - num(expected.north_mps)).abs() < 1e-9);
    }
    assert_eq!(mean.crossfade_seconds, e.member(0).crossfade_seconds);
}

#[test]
fn the_mode_says_what_judges() {
    let two = || {
        BakedEnsembleWindMap::from_members(
            vec![baked(2.0, 0.0), baked(4.0, 0.0)],
            names(&["gec00", "gep01"]),
        )
    };
    let full = WindInput::ensemble_full(two(), &plus, &share);
    assert!(matches!(full, WindInput::Ensemble { mode: EnsembleMode::Full, .. }));
    let winds = full.resolve();
    assert_eq!(winds.judges.unwrap().member_count(), 2);
    assert_eq!(num(winds.baked.grid[0].east_mps), 3.0);
    let winds = WindInput::ensemble_fast_mean(two(), &plus, &share).resolve();
    assert!(winds.judges.is_none());
    assert_eq!(num(winds.baked.grid[3].east_mps), 3.0);
    let winds = WindInput::single(baked(9.0, 0.0)).resolve();
    assert!(winds.judges.is_none());
    assert_eq!(num(winds.baked.grid[0].east_mps), 9.0);
}

#[test]
fn members_are_found_and_put_in_order() {
    let entries = names(&[
        "gep10.wcav",
        "notes.txt",
        "gep02.wcav",
        "gec00.wcav",
        "gex01.wcav",
        "gep2.wcav",
        "gep0a.wcav",
        "gep01.WCAV",
        "gep03.wcav.tmp",
        "gepéé.wcav",
        "gep011.wcav",
        "gep01.wcav",
    ]);
    let files = discover("runs", entries).unwrap();
    assert_eq!(
        files,
        names(&["gec00.wcav", "gep01.wcav", "gep011.wcav", "gep02.wcav", "gep10.wcav"])
    );
    let stems: Vec<String> = files.iter().map(|f| member_name(f)).collect();
    assert_eq!(stems, names(&["gec00", "gep01", "gep011", "gep02", "gep10"]));
}

#[test]
fn a_directory_without_members_is_refused() {
    let e = discover("runs", names(&["a.wcav", "gec00.grib2"])).unwrap_err();
    assert!(matches!(e, EnsembleLoadError::NoMembers { .. }));
    assert_eq!(e.message(&show), "ensemble directory runs contains no `ge[cp]*.wcav` files");
    let source = IoError { kind: IoErrorKind::Other, message: "no such directory".to_owned() };
    let e = EnsembleLoadError::OpenDir { path: "runs".to_owned(), source };
    assert_eq!(e.message(&show), "cannot open ensemble directory runs: no such directory");
    let e = EnsembleLoadError::Decode {
        member: "gep07".to_owned(),
        source: io::LoadError::OptionNotApplicable("no"),
    };
    assert_eq!(e.message(&show), "decoding member gep07: no");
}

#[test]
fn bake_produces_one_baked_per_member() {
    let e = TimedEnsembleWindMap::from_members(vec![timed_map(), timed_map()], names(&["gec00", "gep01"]));
    let all = e.bake(&|k: usize| baked(k as f64, 1.0));
    assert_eq!(all.member_count(), 2);
    assert_eq!(all.member_names(), &names(&["gec00", "gep01"]));
    assert_eq!(num(all.member(1).grid[0].east_mps), 1.0);
    assert_eq!((all.member(0).nx(), all.member(0).ny()), (all.member(1).nx(), all.member(1).ny()));
}
