use hquant::circular::CircularColumn;

#[test]
fn ring_overwrite_ordered_iter() {
    let mut c = CircularColumn::<i32>::new(3);
    c.push(1);
    c.push(2);
    c.push(3);
    assert_eq!(c.to_vec_ordered(), vec![1, 2, 3]);
    c.push(4);
    assert_eq!(c.to_vec_ordered(), vec![2, 3, 4]);
    c.push(5);
    assert_eq!(c.to_vec_ordered(), vec![3, 4, 5]);
}

#[test]
fn update_last_updates_most_recent() {
    let mut c = CircularColumn::<i32>::new(2);
    c.push(10);
    c.push(20);
    c.update_last(21);
    assert_eq!(c.to_vec_ordered(), vec![10, 21]);
    c.push(30);
    assert_eq!(c.to_vec_ordered(), vec![21, 30]);
    c.update_last(31);
    assert_eq!(c.to_vec_ordered(), vec![21, 31]);
}

#[test]
fn keeps_last_capacity_values() {
    for k in 0..10 {
        let mut c = CircularColumn::<i64>::new(4);
        let n = 4 + k;
        for v in 0..n {
            c.push(v as i64);
        }
        let want: Vec<i64> = ((n - 4)..n).map(|v| v as i64).collect();
        assert_eq!(c.to_vec_ordered(), want);
        assert_eq!(c.len(), 4);
        assert!(c.is_full());
    }
}

#[test]
fn get_and_get_from_end() {
    let mut c = CircularColumn::<i32>::new(3);
    assert!(c.is_empty());
    assert_eq!(c.get(0), None);
    assert_eq!(c.get_from_end(0), None);
    for v in [7, 8, 9, 10] {
        c.push(v);
    }
    assert_eq!(c.get(0), Some(8));
    assert_eq!(c.get(2), Some(10));
    assert_eq!(c.get(3), None);
    assert_eq!(c.get_from_end(0), Some(10));
    assert_eq!(c.get_from_end(2), Some(8));
    assert_eq!(c.get_from_end(3), None);
    assert_eq!(c.capacity(), 3);
}

#[test]
fn update_by_index_and_empty_update_last() {
    let mut c = CircularColumn::<i32>::new(2);
    c.update_last(5);
    assert!(c.is_empty());
    c.push(1);
    c.push(2);
    c.push(3);
    c.update(0, 20);
    c.update(5, 99);
    assert_eq!(c.to_vec_ordered(), vec![20, 3]);
}

#[test]
fn raw_parts_reconstruct_order() {
    let mut c = CircularColumn::<i32>::new(3);
    for v in 1..=5 {
        c.push(v);
    }
    let (data, cap, len, head) = c.raw_parts();
    assert_eq!((cap, len), (3, 3));
    let ordered: Vec<i32> = (0..len).map(|i| data[(head + cap - len + i) % cap]).collect();
    assert_eq!(ordered, vec![3, 4, 5]);
}
