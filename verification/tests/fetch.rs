use bywind::calendar::{DateError, UtcTime};
use bywind::fetch::index::parse_idx_for_10m_wind;
use bywind::fetch::when::{hour_on, parse_yyyymmddhh, WhenParseError};
use bywind::fetch::{
    expected_frame_count, gfs_url_for_frame, range_header, resolve_cycle, validate_spec, FetchAction,
    FetchError, FetchProgress, FetchRun, FetchSpec, Source, TranscodeError,
};
use bywind::fetch_ensemble::{gefs_url_for_frame, stride_sample_members, GefsMember};
use bywind::grib2;
use bywind::io_error::{IoError, IoErrorKind};

fn at(h: u32) -> UtcTime {
    UtcTime { seconds: 1_739_404_800 + i64::from(h) * 3600, nanos: 0 }
}

fn spec(from: u32, to: u32, interval_h: u32) -> FetchSpec {
    FetchSpec { start: at(from), end: at(to), interval_h }
}

#[test]
fn expected_frame_count_is_ceil_division_of_half_open_window() {
    assert_eq!(expected_frame_count(&spec(0, 7, 1)), 7);
    assert_eq!(expected_frame_count(&spec(0, 12, 6)), 2);
    // A window that does not end on a frame counts the last one that begins in it.
    assert_eq!(expected_frame_count(&spec(0, 7, 6)), 2);
    assert_eq!(expected_frame_count(&spec(7, 0, 1)), 0);
}

#[test]
fn validate_rejects_non_cycle_start() {
    assert!(matches!(validate_spec(&spec(1, 10, 1)), Err(FetchError::StartNotOnCycle { hour: 1 })));
}

#[test]
fn validate_rejects_unsupported_interval() {
    assert!(matches!(
        validate_spec(&spec(0, 24, 4)),
        Err(FetchError::BadInterval { interval_h: 4 })
    ));
}

#[test]
fn validate_rejects_end_before_start() {
    assert!(matches!(validate_spec(&spec(6, 0, 1)), Err(FetchError::BadWindow)));
}

#[test]
fn every_supported_interval_is_accepted() {
    for interval in [1, 2, 3, 6] {
        assert!(validate_spec(&spec(0, 24, interval)).is_ok());
    }
    assert!(validate_spec(&spec(0, 24, 0)).is_err());
}

#[test]
fn resolve_cycle_maps_offset_hours_to_forecast_indices() {
    let (cycle, fh) = resolve_cycle(at(0)).expect("0h is in range");
    assert_eq!(cycle.hour(), 0);
    assert_eq!(fh, 0);
    let (cycle, fh) = resolve_cycle(at(5)).expect("5h is in range");
    assert_eq!(cycle.hour(), 0);
    assert_eq!(fh, 5);
    let (cycle, fh) = resolve_cycle(at(6)).expect("6h is in range");
    assert_eq!(cycle.hour(), 6);
    assert_eq!(fh, 0);
}

#[test]
fn idx_parser_extracts_only_10m_wind_ranges() {
    let idx = "\
        1:0:d=2026030100:HGT:surface:anl:\n\
        2:5482:d=2026030100:UGRD:10 m above ground:anl:\n\
        3:11034:d=2026030100:VGRD:10 m above ground:anl:\n\
        4:16500:d=2026030100:TMP:2 m above ground:anl:\n\
        5:22000:d=2026030100:UGRD:10 m above ground:anl:\n\
    ";
    let ranges = parse_idx_for_10m_wind(idx);
    assert_eq!(ranges.len(), 3);
    assert_eq!(ranges[0], (5482, Some(11034)));
    assert_eq!(ranges[1], (11034, Some(16500)));
    assert_eq!(ranges[2], (22000, None));
}

#[test]
fn gfs_urls_name_the_run_and_the_lead() {
    let (cycle, fh) = resolve_cycle(at(7)).unwrap();
    assert_eq!(
        gfs_url_for_frame(cycle, fh),
        "https://noaa-gfs-bdp-pds.s3.amazonaws.com/gfs.20250213/06/atmos/gfs.t06z.pgrb2.0p25.f001"
    );
}

#[test]
fn ranges_are_asked_for_without_their_end() {
    assert_eq!(range_header((5482, Some(11034))), "bytes=5482-11033");
    assert_eq!(range_header((22000, None)), "bytes=22000-");
}

#[test]
fn hours_are_read() {
    assert_eq!(parse_yyyymmddhh("20250213").unwrap(), at(0));
    assert_eq!(parse_yyyymmddhh("2025021305").unwrap(), at(5));
    assert!(matches!(parse_yyyymmddhh("2025"), Err(WhenParseError::BadLength { len: 4, .. })));
    assert!(matches!(parse_yyyymmddhh("2025021324"), Err(WhenParseError::HourOutOfRange { hour: 24 })));
    assert!(matches!(parse_yyyymmddhh("20250230"), Err(WhenParseError::BadDate { .. })));
    assert!(matches!(parse_yyyymmddhh("20250213x1"), Err(WhenParseError::BadHour { .. })));
    assert_eq!(
        parse_yyyymmddhh("2025").unwrap_err().message(),
        "expected YYYYMMDD or YYYYMMDDHH, got `2025` (4 chars)"
    );
}

#[test]
fn a_run_asks_for_the_index_and_then_the_ranges() {
    let (mut run, action) = FetchRun::begin(spec(0, 1, 1), Source::Gfs).unwrap();
    let url = "https://noaa-gfs-bdp-pds.s3.amazonaws.com/gfs.20250213/00/atmos/gfs.t00z.pgrb2.0p25.f000";
    match action {
        FetchAction::ReadIndex { url: u } => assert_eq!(u, format!("{url}.idx")),
        other => panic!("{other:?}"),
    }
    let idx = "1:0:d=2025021300:UGRD:10 m above ground:anl:\n2:100:d=2025021300:VGRD:10 m above ground:anl:\n";
    match run.on_index(Ok(idx.to_owned())) {
        FetchAction::ReadRange { url: u, range } => {
            assert_eq!(u, url);
            assert_eq!(range, "bytes=0-99");
        },
        other => panic!("{other:?}"),
    }
    match run.on_range(Ok(vec![1; 100])) {
        FetchAction::ReadRange { range, .. } => assert_eq!(range, "bytes=100-"),
        other => panic!("{other:?}"),
    }
    match run.on_range(Ok(vec![2; 70])) {
        FetchAction::WriteFrame { bytes } => assert_eq!(bytes, [[1; 100].as_slice(), &[2; 70]].concat()),
        other => panic!("{other:?}"),
    }
    match run.on_written(Ok(())) {
        FetchAction::Report { progress: FetchProgress::Fetched { idx, total, timestamp, bytes } } => {
            assert_eq!((idx, total, timestamp, bytes), (1, 1, at(0), 170));
        },
        other => panic!("{other:?}"),
    }
    match run.on_reported(false) {
        FetchAction::Finish { outcome: Ok(stats) } => {
            assert_eq!(stats.fetched, 1);
            assert_eq!(stats.skipped, 0);
            assert_eq!(stats.total_bytes, 170);
        },
        other => panic!("{other:?}"),
    }
}

#[test]
fn a_run_without_a_frame_ends_in_an_error() {
    let (mut run, _) = FetchRun::begin(spec(0, 1, 1), Source::Gefs(GefsMember(3))).unwrap();
    match run.on_index(Err("404".to_owned())) {
        FetchAction::Report { progress: FetchProgress::Skipped { reason, .. } } => {
            assert_eq!(reason, "idx unavailable: 404")
        },
        other => panic!("{other:?}"),
    }
    assert!(matches!(
        run.on_reported(false),
        FetchAction::Finish { outcome: Err(FetchError::NoFramesFetched { skipped: 1 }) }
    ));
}

#[test]
fn fetch_errors_are_worded() {
    assert_eq!(FetchError::BadWindow.message(), "end must be strictly after start");
    assert_eq!(
        FetchError::StartNotOnCycle { hour: 3 }.message(),
        "start hour 3 is not a GFS cycle (must be 00, 06, 12, or 18 UTC)"
    );
    assert_eq!(
        FetchError::BadInterval { interval_h: 4 }.message(),
        "interval_h=4 would require a forecast hour > 5; use one of 1, 2, 3, or 6"
    );
    assert_eq!(
        FetchError::ForecastHourOutOfRange { forecast_hour: 9 }.message(),
        "internal error: forecast hour 9 exceeds f005"
    );
    let broken = IoError { kind: IoErrorKind::Other, message: "disk full".to_owned() };
    assert_eq!(FetchError::Io(broken).message(), "I/O error: disk full");
    assert_eq!(
        FetchError::NoFramesFetched { skipped: 2 }.message(),
        "no frames fetched successfully (2 attempts skipped)"
    );
}

#[test]
fn transcode_errors_are_worded() {
    let source = IoError { kind: IoErrorKind::Other, message: "gone".to_owned() };
    let e = TranscodeError::OpenGrib2 { path: "a.grib2".to_owned(), source: source.clone() };
    assert_eq!(e.message(), "opening a.grib2: gone");
    let e = TranscodeError::CreateWcav { path: "a.wcav".to_owned(), source };
    assert_eq!(e.message(), "creating a.wcav: gone");
    let e = TranscodeError::DecodeGrib2 {
        path: "a.grib2".to_owned(),
        source: grib2::LoadError::Grib("short".to_owned()),
    };
    assert_eq!(e.message(), "decoding GRIB2 from a.grib2: GRIB2 error: short");
}

#[test]
fn control_member_filename_is_gec00() {
    assert_eq!(GefsMember::control().filename_prefix(), "gec00");
    assert_eq!(GefsMember(0).filename_prefix(), "gec00");
}

#[test]
fn perturbed_members_zero_pad_to_two_digits() {
    assert_eq!(GefsMember(1).filename_prefix(), "gep01");
    assert_eq!(GefsMember(9).filename_prefix(), "gep09");
    assert_eq!(GefsMember(10).filename_prefix(), "gep10");
    assert_eq!(GefsMember(30).filename_prefix(), "gep30");
}

#[test]
fn member_validity_is_bounded_at_thirty() {
    assert!(GefsMember(0).is_valid());
    assert!(GefsMember(30).is_valid());
    assert!(!GefsMember(31).is_valid());
}

#[test]
fn stride_sample_zero_returns_empty() {
    assert!(stride_sample_members(0).is_empty());
}

#[test]
fn stride_sample_one_returns_only_control() {
    assert_eq!(stride_sample_members(1), vec![GefsMember::control()]);
}

#[test]
fn stride_sample_default_ten_spans_the_perturbed_range() {
    let s = stride_sample_members(10);
    assert_eq!(s.len(), 10);
    assert_eq!(s[0], GefsMember::control());
    let perturbed: Vec<u8> = s[1..].iter().map(|m| m.0).collect();
    assert!(perturbed.iter().all(|&i| (1..=30).contains(&i)));
    assert!(perturbed.windows(2).all(|w| w[0] < w[1]));
    assert!(perturbed.first().copied().unwrap_or(0) <= 5);
    assert!(perturbed.last().copied().unwrap_or(0) >= 25);
}

#[test]
fn stride_sample_clamps_above_thirty_one() {
    assert_eq!(stride_sample_members(40).len(), 31);
}

#[test]
fn url_construction_matches_gefs_bucket_layout() {
    let cycle = parse_yyyymmddhh("2026052006").unwrap();
    let url = gefs_url_for_frame(cycle, 3, GefsMember(7));
    assert_eq!(
        url,
        "https://noaa-gefs-pds.s3.amazonaws.com/gefs.20260520/06/atmos/pgrb2sp25/\
         gep07.t06z.pgrb2s.0p25.f003",
    );
}

#[test]
fn url_for_control_member_uses_gec00_prefix() {
    let cycle = parse_yyyymmddhh("2026010100").unwrap();
    let url = gefs_url_for_frame(cycle, 0, GefsMember::control());
    assert!(url.contains("/gec00.t00z.pgrb2s.0p25.f000"));
}

#[test]
fn hours_are_told_from_dates() {
    let told = hour_on("19700102", 3, Ok((1970, 1, 2))).unwrap();
    assert_eq!((told.seconds, told.nanos), (86_400 + 3 * 3600, 0));
    assert!(matches!(
        hour_on("19700102", 24, Ok((1970, 1, 2))),
        Err(WhenParseError::HourOutOfRange { hour: 24 })
    ));
    assert!(matches!(
        hour_on("+1970102", 3, Ok((197, 1, 2))),
        Err(WhenParseError::BadDate { source: DateError::Invalid, .. })
    ));
    assert!(matches!(
        hour_on("19700231", 3, Err(DateError::OutOfRange)),
        Err(WhenParseError::BadDate { source: DateError::OutOfRange, .. })
    ));
}

const BOTH_WINDS: &str =
    "1:0:d=2025021300:UGRD:10 m above ground:anl:\n2:100:d=2025021300:VGRD:10 m above ground:anl:\n";

#[test]
fn a_skipped_frame_leaves_no_bytes() {
    let (mut run, _) = FetchRun::begin(spec(0, 2, 1), Source::Gfs).unwrap();
    run.on_index(Ok(BOTH_WINDS.to_owned()));
    run.on_range(Ok(vec![1; 100]));
    assert!(matches!(
        run.on_range(Err("reset".to_owned())),
        FetchAction::Report { progress: FetchProgress::Skipped { idx: 1, reason, .. } }
            if reason == "range fetch failed: reset"
    ));
    assert!(matches!(run.on_reported(false), FetchAction::ReadIndex { .. }));
    run.on_index(Ok(BOTH_WINDS.to_owned()));
    run.on_range(Ok(vec![3, 4]));
    match run.on_range(Ok(vec![5])) {
        FetchAction::WriteFrame { bytes } => assert_eq!(bytes, [3, 4, 5]),
        other => panic!("{other:?}"),
    }
    run.on_written(Ok(()));
    match run.on_reported(false) {
        FetchAction::Finish { outcome: Ok(stats) } => {
            assert_eq!((stats.fetched, stats.skipped, stats.total_bytes), (1, 1, 3));
        }
        other => panic!("{other:?}"),
    }
}

#[test]
fn a_failure_to_write_ends_the_run() {
    let (mut run, _) = FetchRun::begin(spec(0, 1, 1), Source::Gfs).unwrap();
    run.on_index(Ok(BOTH_WINDS.to_owned()));
    run.on_range(Ok(vec![1]));
    run.on_range(Ok(vec![2]));
    let full = IoError { kind: IoErrorKind::Other, message: "disk full".to_owned() };
    assert!(matches!(
        run.on_written(Err(full)),
        FetchAction::Finish { outcome: Err(FetchError::Io(e)) } if e.message == "disk full"
    ));
}
