use hquant::multi::{decode_strategy_id, encode_strategy_id, replaces_last, timeframe_index};

#[test]
fn strategy_ids_carry_their_timeframe() {
    assert_eq!(encode_strategy_id(0, 5), 5);
    assert_eq!(encode_strategy_id(2, 0x12345), 0x22345);
    assert_eq!(encode_strategy_id(1, 3), 65_539);
    assert_eq!(decode_strategy_id(0x22345), (2, 0x2345));
}

#[test]
fn candles_replace_or_push() {
    assert!(replaces_last(Some(900_000), 900_000));
    assert!(!replaces_last(Some(0), 900_000));
    assert!(!replaces_last(None, 0));
}

#[test]
fn timeframe_indices_start_at_one() {
    let periods = vec![900_000i64, 14_400_000];
    assert_eq!(timeframe_index(&periods, 900_000), 1);
    assert_eq!(timeframe_index(&periods, 14_400_000), 2);
    assert_eq!(timeframe_index(&periods, 60_000), 0);
}
