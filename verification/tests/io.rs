use bywind::grib2;
use bywind::grib2::Grib2Bbox;
use bywind::io::{plan_load, Format, LoadError};
use bywind::io_error::{IoError, IoErrorKind};
use bywind::number::Real32;
use bywind::wind_av1::decoder::DecodeError;

fn r32(v: f32) -> Real32 {
    Real32 { bits: v.to_bits() }
}

fn show(v: Real32) -> String {
    format!("{}", f32::from_bits(v.bits))
}

#[test]
fn format_from_path_detects_known_extensions() {
    assert_eq!(Format::from_path("a.grib2").unwrap(), Format::Grib2);
    assert_eq!(Format::from_path("a.GRB2").unwrap(), Format::Grib2);
    assert_eq!(Format::from_path("a.grib").unwrap(), Format::Grib2);
    assert_eq!(Format::from_path("a.wcav").unwrap(), Format::WindAv1);
}

#[test]
fn format_from_path_rejects_unknown_extensions() {
    assert!(matches!(Format::from_path("a.json"), Err(LoadError::UnknownExtension(_))));
    assert!(matches!(Format::from_path("a.csv"), Err(LoadError::UnknownExtension(_))));
    assert!(matches!(Format::from_path("noext"), Err(LoadError::UnknownExtension(_))));
}

#[test]
fn extensions_are_read_as_paths_are() {
    for path in ["dir.wcav/noext", ".wcav", "", "/", "a.wcav/..", "a.wcav.bak", "..wcav/."] {
        let want = std::path::Path::new(path).extension().and_then(|e| e.to_str()) == Some("wcav");
        assert_eq!(Format::from_path(path).is_ok(), want, "{path}");
    }
    for path in ["/data/winds.tar.WcAv", "a.wcav/", "a.wcav/.", "é/ü.wcav", "./b..wcav"] {
        assert_eq!(Format::from_path(path).unwrap(), Format::WindAv1, "{path}");
    }
}

#[test]
fn format_name_labels_match_module_doc() {
    assert_eq!(Format::Grib2.name(), "GRIB2");
    assert_eq!(Format::WindAv1.name(), "wind_av1");
}

#[test]
fn load_rejects_grib_options_with_wcav_input() {
    let bbox = Grib2Bbox {
        lat_min: r32(0.0),
        lon_min: r32(0.0),
        lat_max: r32(1.0),
        lon_max: r32(1.0),
    };
    assert!(matches!(plan_load("a.wcav", 1, Some(bbox)), Err(LoadError::OptionNotApplicable(_))));
    assert!(matches!(plan_load("a.wcav", 2, None), Err(LoadError::OptionNotApplicable(_))));
    assert!(matches!(plan_load("a.wcav", 1, None), Ok(Format::WindAv1)));
    assert!(matches!(plan_load("a.grib2", 2, Some(bbox)), Ok(Format::Grib2)));
    assert!(matches!(plan_load("a.txt", 2, Some(bbox)), Err(LoadError::UnknownExtension(_))));
}

#[test]
fn load_errors_are_worded() {
    assert_eq!(
        LoadError::UnknownExtension("a.txt".to_owned()).message(&show),
        "cannot infer wind-map format from extension of a.txt: known extensions are .grib2 / .grb2 / .grib / .wcav"
    );
    assert_eq!(
        plan_load("a.wcav", 2, None).unwrap_err().message(&show),
        "grib_stride / grib_bbox apply only to GRIB2 input"
    );
    let source = IoError { kind: IoErrorKind::Other, message: "denied".to_owned() };
    assert_eq!(
        LoadError::Io { path: "a.wcav".to_owned(), source }.message(&show),
        "I/O error on a.wcav: denied"
    );
    assert_eq!(
        LoadError::Grib(grib2::LoadError::NoFrames).message(&show),
        "GRIB2 file contained no complete UGRD/VGRD pair at 10 m above ground"
    );
    assert_eq!(LoadError::WindAv1(DecodeError::BadMagic).message(&show), "not a wind_av1 file (bad magic)");
    let step = DecodeError::BadStep { step_lon: r32(0.5), step_lat: r32(-1.5) };
    assert_eq!(LoadError::WindAv1(step).message(&show), "invalid grid step: step_lon=0.5, step_lat=-1.5");
}
