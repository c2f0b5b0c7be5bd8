use hquant::timeframe::TimeFrame;

#[test]
fn test_timeframe_millis() {
    assert_eq!(TimeFrame::M1.millis(), 60_000);
    assert_eq!(TimeFrame::M15.millis(), 15 * 60_000);
    assert_eq!(TimeFrame::H4.millis(), 4 * 60 * 60_000);
    assert_eq!(TimeFrame::D1.millis(), 24 * 60 * 60_000);
}

#[test]
fn test_timeframe_align() {
    let ts = 1000 * 60 * 17;
    let aligned = TimeFrame::M15.align_timestamp(ts);
    assert_eq!(aligned, 1000 * 60 * 15);

    let ts = 1000 * 60 * 60 * 5;
    let aligned = TimeFrame::H4.align_timestamp(ts);
    assert_eq!(aligned, 1000 * 60 * 60 * 4);
}

#[test]
fn test_timeframe_multiple() {
    assert!(TimeFrame::H4.is_multiple_of(&TimeFrame::M15));
    assert!(TimeFrame::D1.is_multiple_of(&TimeFrame::H4));
    assert!(TimeFrame::H4.is_multiple_of(&TimeFrame::M30));
    assert!(!TimeFrame::M5.is_multiple_of(&TimeFrame::M15));
}

#[test]
fn test_timeframe_ratio() {
    assert_eq!(TimeFrame::H1.ratio(&TimeFrame::M15), 4);
    assert_eq!(TimeFrame::H4.ratio(&TimeFrame::M15), 16);
    assert_eq!(TimeFrame::D1.ratio(&TimeFrame::H4), 6);
}

#[test]
fn week_timeframe() {
    assert_eq!(TimeFrame::W1.millis(), 604_800_000);
    assert_eq!(TimeFrame::W1.ratio(&TimeFrame::D1), 7);
}
