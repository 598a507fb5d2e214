use mydns::duration::{parse, Duration, DurationError, TimeUnit, HOUR, MINUTE};

#[test]
fn time_units() {
    assert_eq!(parse(b"12s").ok(), Some(Duration::from_secs(12)));
    assert_eq!(parse(b"1m10s").ok(), Some(Duration::from_secs(70)));
    assert_eq!(parse(b"1h15m10s").ok(), Some(Duration::from_secs(HOUR + (15 * MINUTE) + 10)));

    assert_eq!(parse(b"1G").ok(), None);
    assert_eq!(parse(b"1h34m23g").ok(), None);
}

#[test]
fn duration_exact_seconds() {
    // the P-scenario value: one hour, fifteen minutes, ten seconds
    let d = parse(b"1h15m10s").unwrap();
    assert_eq!(d.as_secs(), 4510);
    assert_eq!(d.nanos, 0);
}

#[test]
fn duration_error_variants() {
    // unknown unit
    assert_eq!(parse(b"1G"), Err(DurationError::InvalidUnit));
    // runs that do not pair up
    assert_eq!(parse(b"5"), Err(DurationError::InvalidDuration));
    assert_eq!(parse(b"s"), Err(DurationError::InvalidDuration));
    // a number too large for 64 bits
    assert_eq!(parse(b"99999999999999999999s"), Err(DurationError::Overflow));
    // a unit product too large for 64 bits
    assert_eq!(parse(b"999999999999999999d"), Err(DurationError::Overflow));
}

#[test]
fn duration_subsecond_units() {
    assert_eq!(parse(b"1500ms").unwrap(), Duration { secs: 1, nanos: 500_000_000 });
    assert_eq!(parse(b"2500us").unwrap(), Duration { secs: 0, nanos: 2_500_000 });
    assert_eq!(parse(b"999ns").unwrap(), Duration { secs: 0, nanos: 999 });
    assert_eq!(parse(b"2d").unwrap(), Duration::from_secs(2 * 86400));
    // the micro sign spells the same unit as "us"
    assert_eq!(parse("1\u{b5}s".as_bytes()).unwrap(), Duration { secs: 0, nanos: 1_000 });
    assert_eq!(
        parse("2s1\u{b5}s".as_bytes()).unwrap(),
        Duration { secs: 2, nanos: 1_000 }
    );
}

#[test]
fn duration_unit_table() {
    assert_eq!(TimeUnit::from(b"h").unwrap(), TimeUnit::Hour);
    assert_eq!(TimeUnit::from(b"H").unwrap(), TimeUnit::Hour);
    assert_eq!(TimeUnit::from(b"ms").unwrap(), TimeUnit::MilliSecond);
    assert_eq!(TimeUnit::from("\u{b5}s".as_bytes()).unwrap(), TimeUnit::MicroSecond);
    assert!(TimeUnit::from(b"y").is_err());
    let d = TimeUnit::Minute.to_duration(3);
    assert_eq!(d.as_secs(), 180);
}
