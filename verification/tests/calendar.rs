use bywind::calendar::{push_yyyymmdd, utc_second, DateError, UtcTime};

fn named(seconds: i64) -> String {
    let mut s = String::new();
    push_yyyymmdd(&mut s, UtcTime { seconds, nanos: 0 });
    s
}

#[test]
fn days_have_names() {
    assert_eq!(named(0), "19700101");
    assert_eq!(named(-1), "19691231");
    assert_eq!(named(951_782_400), "20000229");
    assert_eq!(named(1_739_404_800 + 86_399), "20250213");
}

#[test]
fn seconds_have_dates_in_range() {
    assert_eq!(utc_second(5), Some(UtcTime { seconds: 5, nanos: 0 }));
    assert_eq!(utc_second(i64::MAX), None);
    assert_eq!(utc_second(i64::MIN), None);
}

#[test]
fn date_errors_have_words() {
    assert_eq!(DateError::TooShort.message(), "premature end of input");
    assert_eq!(DateError::OutOfRange.message(), "input is out of range");
}

#[test]
fn hours_are_those_of_the_day() {
    let t = UtcTime { seconds: -3600, nanos: 7 };
    assert_eq!(t.hour(), 23);
    assert!(t.is_before(UtcTime { seconds: -3600, nanos: 8 }));
    assert_eq!(t.minus_hours(24), UtcTime { seconds: -3600 - 86_400, nanos: 7 });
}
