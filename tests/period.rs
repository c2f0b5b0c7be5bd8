use hquant::period::{period_suffix_to_ms, Period, PeriodError};

#[test]
fn parse_periods() {
    assert_eq!(Period::parse("15m").unwrap().as_ms(), 15 * 60_000);
    assert_eq!(Period::parse("4h").unwrap().as_ms(), 4 * 3_600_000);
    assert_eq!(Period::parse("1d").unwrap().as_ms(), 86_400_000);
    assert_eq!(Period::parse("500ms").unwrap().as_ms(), 500);
}

#[test]
fn bucket_start() {
    let p = Period::parse("15m").unwrap();
    assert_eq!(p.bucket_start(0), 0);
    assert_eq!(p.bucket_start(1), 0);
    assert_eq!(p.bucket_start(15 * 60_000), 15 * 60_000);
    assert_eq!(p.bucket_start(15 * 60_000 + 1), 15 * 60_000);
}

#[test]
fn bucket_start_rounds_down_for_negative_times() {
    let p = Period::from_ms(10);
    assert_eq!(p.bucket_start(-1), -10);
    assert_eq!(p.bucket_start(-10), -10);
    assert_eq!(p.bucket_start(-11), -20);
    assert_eq!(p.bucket_start(9), 0);
}

#[test]
fn parse_accepts_case_and_whitespace() {
    assert_eq!(Period::parse(" 15 M ").unwrap().as_ms(), 900_000);
    assert_eq!(Period::parse("2S").unwrap().as_ms(), 2_000);
    assert_eq!(Period::parse("\u{3000}4h\t").unwrap().as_ms(), 14_400_000);
    assert_eq!(Period::parse("007ms").unwrap().as_ms(), 7);
}

#[test]
fn parse_errors() {
    assert_eq!(Period::parse("   "), Err(PeriodError::Empty));
    assert_eq!(Period::parse("h"), Err(PeriodError::MissingNumber));
    assert_eq!(Period::parse("0m"), Err(PeriodError::NotPositive));
    assert_eq!(Period::parse("15x"), Err(PeriodError::UnsupportedUnit));
    assert_eq!(Period::parse("15"), Err(PeriodError::UnsupportedUnit));
    assert_eq!(Period::parse("99999999999999999999m"), Err(PeriodError::InvalidNumber));
    assert_eq!(Period::parse("9223372036854775807h"), Err(PeriodError::TooLarge));
    assert_eq!(PeriodError::Empty.message(), "empty period");
}

#[test]
fn suffix_to_ms() {
    assert_eq!(period_suffix_to_ms("4h"), Ok(14_400_000));
    assert_eq!(period_suffix_to_ms("x"), Err(PeriodError::MissingNumber));
}
