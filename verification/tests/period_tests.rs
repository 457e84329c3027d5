use git_vibe::clock::Moment;
use git_vibe::model::VibeError;
use git_vibe::period::{is_before_period, parse_period, period_cutoff, period_seconds, read_period, PeriodReading};
use std::time::{SystemTime, UNIX_EPOCH};

fn unix_now() -> i64 {
    SystemTime::now().duration_since(UNIX_EPOCH).unwrap().as_secs() as i64
}

#[test]
fn test_period_units() {
    assert_eq!(read_period("3m"), PeriodReading::Span(3 * 2_628_000));
    assert_eq!(read_period("12m"), PeriodReading::Span(31_536_000));
    assert_eq!(read_period("1y"), PeriodReading::Span(31_536_000));
    assert_eq!(read_period("30d"), PeriodReading::Span(2_592_000));
    assert_eq!(read_period("4w"), PeriodReading::Span(2_419_200));
}

#[test]
fn test_period_signs_follow_integer_parsing() {
    assert_eq!(read_period("+2d"), PeriodReading::Span(172_800));
    assert_eq!(read_period("-1d"), PeriodReading::Span(-86_400));
    assert_eq!(read_period("0y"), PeriodReading::Span(0));
    assert_eq!(read_period("-d"), PeriodReading::Malformed);
    assert_eq!(read_period("+d"), PeriodReading::Malformed);
}

#[test]
fn test_period_malformed() {
    assert_eq!(read_period("abc"), PeriodReading::Malformed);
    assert_eq!(read_period(""), PeriodReading::Malformed);
    assert_eq!(read_period("m"), PeriodReading::Malformed);
    assert_eq!(read_period("3x"), PeriodReading::Malformed);
    assert_eq!(read_period("3 m"), PeriodReading::Malformed);
    assert_eq!(read_period("99999999999999999999d"), PeriodReading::Malformed);
    assert_eq!(read_period("1é"), PeriodReading::Malformed);
    assert_eq!(read_period("é"), PeriodReading::Malformed);
    assert_eq!(read_period("é3m"), PeriodReading::Malformed);
}

#[test]
fn test_period_unmeasurable() {
    assert_eq!(read_period("9999999999999999m"), PeriodReading::OutOfRange);
}

#[test]
fn test_invalid_period_error_keeps_text() {
    match period_seconds("abc") {
        Err(VibeError::InvalidPeriod(t)) => assert_eq!(t, "abc"),
        other => panic!("unexpected {:?}", other),
    }
    assert!(matches!(period_seconds("6m"), Ok(15_768_000)));
}

#[test]
fn test_period_cutoff_subtracts_span() {
    let now = Moment { secs: 1_000_000, nanos: 5 };
    assert!(matches!(period_cutoff("1d", now), Ok(Moment { secs: 913_600, nanos: 5 })));
    assert!(matches!(period_cutoff("-1d", now), Ok(Moment { secs: 1_086_400, nanos: 5 })));
    assert!(matches!(period_cutoff("1q", now), Err(VibeError::InvalidPeriod(_))));
}

#[test]
fn test_parse_period_reads_the_clock() {
    let before = unix_now();
    let since = parse_period("12m");
    let after = unix_now();
    match since {
        Some(Ok(m)) => {
            assert!(before - 31_536_000 <= m.secs && m.secs <= after - 31_536_000);
            assert!(m.nanos < 1_000_000_000);
        }
        other => panic!("unexpected {:?}", other),
    }
}

#[test]
fn test_parse_period_errors() {
    assert!(matches!(parse_period("abc"), Some(Err(VibeError::InvalidPeriod(_)))));
    match parse_period("3é") {
        Some(Err(VibeError::InvalidPeriod(t))) => assert_eq!(t, "3é"),
        other => panic!("unexpected {:?}", other),
    }
    assert!(parse_period("9999999999999999m").is_none());
}

#[test]
fn test_commit_before_period() {
    let since = Moment { secs: 100, nanos: 0 };
    assert!(is_before_period(99, since));
    assert!(!is_before_period(100, since));
    assert!(!is_before_period(101, since));
    let since = Moment { secs: 100, nanos: 1 };
    assert!(is_before_period(100, since));
}

#[test]
fn test_twelve_months_make_a_year() {
    assert_eq!(read_period("12m"), read_period("1y"));
    assert_eq!(read_period("24m"), read_period("2y"));
    let now = Moment { secs: 1_700_000_000, nanos: 7 };
    assert!(matches!(
        (period_cutoff("12m", now), period_cutoff("1y", now)),
        (Ok(a), Ok(b)) if a == b
    ));
}
