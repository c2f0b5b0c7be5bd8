use hquant::aggregator::{Aggregator, BucketStep};
use hquant::period::Period;

const M15: i64 = 15 * 60_000;
const H4: i64 = 4 * 3_600_000;

#[test]
fn one_bucket_closes_when_the_next_opens() {
    let mut ag = Aggregator::new(vec![Period::from_ms(H4)]);
    let mut steps = Vec::new();
    for k in 0..16 {
        steps.extend(ag.push(k * M15));
    }
    assert_eq!(steps[0], BucketStep::Start { open_time: 0, close_time: H4 });
    assert!(steps[1..].iter().all(|s| *s == BucketStep::Merge));
    assert_eq!(ag.push(H4), vec![BucketStep::Roll { open_time: H4, close_time: 2 * H4 }]);
    assert_eq!(ag.flush(), vec![0]);
    assert_eq!(ag.flush(), Vec::<usize>::new());
    assert_eq!(ag.push(H4 + 1), vec![BucketStep::Start { open_time: H4, close_time: 2 * H4 }]);
}

#[test]
fn timeframes_step_independently() {
    let mut ag = Aggregator::new(vec![Period::from_ms(M15), Period::from_ms(H4)]);
    assert_eq!(ag.len(), 2);
    assert_eq!(ag.period_ms(1), H4);
    ag.push(0);
    assert_eq!(
        ag.push(M15),
        vec![BucketStep::Roll { open_time: M15, close_time: 2 * M15 }, BucketStep::Merge]
    );
    assert_eq!(ag.flush(), vec![0, 1]);
}
