use hquant::kline_buffer::{BarT, KlineBuffer};
use hquant::types::Field;

type Bar = BarT<f64>;

#[test]
fn push_update_last_roundtrip() {
    let mut kb = KlineBuffer::new(2);
    kb.push(Bar::new(1, 1.0, 2.0, 0.5, 1.5, 10.0, 3.0));
    kb.push(Bar::new(2, 2.0, 3.0, 1.5, 2.5, 11.0, 4.0));
    assert_eq!(kb.len(), 2);
    let old = kb.update_last(Bar::new(2, 20.0, 30.0, 15.0, 25.0, 110.0, 40.0));
    assert_eq!(old.unwrap().close, 2.5);
    assert_eq!(kb.last().unwrap().close, 25.0);
    kb.push(Bar::new(3, 3.0, 4.0, 2.5, 3.5, 12.0, 5.0));
    assert_eq!(kb.len(), 2);
    assert_eq!(kb.get(0).unwrap().timestamp, 2);
    assert_eq!(kb.get(1).unwrap().timestamp, 3);
}

#[test]
fn fields_and_columns() {
    let mut kb: KlineBuffer<i64> = KlineBuffer::new(3);
    assert!(kb.is_empty());
    assert!(kb.update_last(BarT::new(0, 1, 1, 1, 1, 1, 1)).is_none());
    assert!(kb.is_empty());
    kb.push(BarT::new(10, 1, 5, 0, 4, 100, 60));
    kb.push(BarT::new(20, 4, 6, 3, 5, 80, 30));
    assert_eq!(kb.get_f64(Field::High, 0), Some(5));
    assert_eq!(kb.get_f64(Field::BuyVolume, 1), Some(30));
    assert_eq!(kb.get_f64(Field::Close, 2), None);
    assert_eq!(kb.last_f64(Field::Volume), Some(80));
    assert_eq!(kb.column(Field::Close).to_vec_ordered(), vec![4, 5]);
    assert_eq!(kb.timestamp().to_vec_ordered(), vec![10, 20]);
    assert_eq!(kb.capacity(), 3);
}
