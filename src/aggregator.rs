//! Multi-timeframe candle bucketing: for each configured timeframe, what an incoming
//! bar does to the in-progress candle.
use crate::period::{bucket_of, Period};
use vstd::prelude::*;

verus! {

/// What one bar does to one timeframe's in-progress candle.
#[derive(Debug, Clone, Copy, PartialEq, Eq, Structural)]
pub enum BucketStep {
    /// No candle was in progress: start one for the bucket `open_time..close_time`.
    Start { open_time: i64, close_time: i64 },
    /// The bar falls in the current candle's bucket: merge it.
    Merge,
    /// The bar opens another bucket: close the current candle, then start this one.
    Roll { open_time: i64, close_time: i64 },
}

/// The step for a bar at `ts` in a timeframe of `ms` milliseconds whose in-progress
/// candle opened at `cur` (none when `None`).
pub open spec fn step_of(cur: Option<i64>, ts: int, ms: int) -> BucketStep {
    let open = bucket_of(ts, ms);
    match cur {
        None => BucketStep::Start { open_time: open as i64, close_time: (open + ms) as i64 },
        Some(c) => if c == open {
            BucketStep::Merge
        } else {
            BucketStep::Roll { open_time: open as i64, close_time: (open + ms) as i64 }
        },
    }
}

/// The steps of bars at `tss`, pushed in turn, starting from `cur`.
pub open spec fn steps_from(cur: Option<i64>, tss: Seq<i64>, ms: int) -> Seq<BucketStep>
    decreases tss.len(),
{
    if tss.len() == 0 {
        Seq::empty()
    } else {
        seq![step_of(cur, tss[0] as int, ms)] + steps_from(
            Some(bucket_of(tss[0] as int, ms) as i64),
            tss.drop_first(),
            ms,
        )
    }
}

/// A bar at `ts` has its bucket bounds representable for a timeframe of `ms`.
pub open spec fn fits(ts: int, ms: int) -> bool {
    bucket_of(ts, ms) >= i64::MIN && bucket_of(ts, ms) + ms <= i64::MAX
}

/// Per-timeframe bucketing state: each timeframe's in-progress candle, by its open time.
#[derive(Debug)]
pub struct Aggregator {
    periods: Vec<Period>,
    current: Vec<Option<i64>>,
}

impl Aggregator {
    /// The configured timeframes in milliseconds, in order.
    pub closed spec fn spec_periods(&self) -> Seq<int> {
        self.periods@.map_values(|p: Period| p.spec_ms() as int)
    }

    /// Open time of each timeframe's in-progress candle.
    pub closed spec fn spec_current(&self) -> Seq<Option<i64>> {
        self.current@
    }

    pub closed spec fn wf(&self) -> bool {
        &&& self.periods@.len() == self.current@.len()
        &&& self.periods@.len() > 0
        &&& forall|k: int| 0 <= k < self.periods@.len() ==> (#[trigger] self.periods@[k]).spec_ms() > 0
    }

    pub fn new(periods: Vec<Period>) -> (r: Self)
        requires
            periods@.len() > 0,
        ensures
            r.wf(),
            r.spec_periods() == periods@.map_values(|p: Period| p.spec_ms() as int),
            r.spec_current() == Seq::new(periods@.len(), |k: int| None::<i64>),
    {
        let mut current: Vec<Option<i64>> = Vec::new();
        let mut k: usize = 0;
        while k < periods.len()
            invariant
                k <= periods@.len(),
                current@ == Seq::new(k as nat, |q: int| None::<i64>),
            decreases periods@.len() - k,
        {
            current.push(None);
            k = k + 1;
            assert(current@ =~= Seq::new(k as nat, |q: int| None::<i64>));
        }
        let mut i: usize = 0;
        while i < periods.len()
            invariant
                i <= periods@.len(),
                forall|q: int| 0 <= q < i ==> (#[trigger] periods@[q]).spec_ms() > 0,
            decreases periods@.len() - i,
        {
            let _ = periods[i].as_ms();
            i = i + 1;
        }
        Aggregator { periods, current }
    }

    /// Number of configured timeframes.
    pub fn len(&self) -> (r: usize)
        ensures
            r == self.spec_periods().len(),
    {
        self.periods.len()
    }

    /// Timeframe `k` in milliseconds.
    pub fn period_ms(&self, k: usize) -> (r: i64)
        requires
            self.wf(),
            k < self.spec_periods().len(),
        ensures
            r == self.spec_periods()[k as int],
            r > 0,
    {
        self.periods[k].as_ms()
    }

    /// Feeds a bar at `ts`: returns one step per timeframe, in configuration order, and
    /// moves every in-progress candle to the bar's bucket.
    pub fn push(&mut self, ts: i64) -> (r: Vec<BucketStep>)
        requires
            old(self).wf(),
            forall|k: int| 0 <= k < old(self).spec_periods().len() ==> fits(ts as int, #[trigger] old(self).spec_periods()[k]),
        ensures
            final(self).wf(),
            final(self).spec_periods() == old(self).spec_periods(),
            r@.len() == old(self).spec_periods().len(),
            forall|k: int|
                0 <= k < r@.len() ==> #[trigger] r@[k] == step_of(
                    old(self).spec_current()[k],
                    ts as int,
                    old(self).spec_periods()[k],
                ),
            final(self).spec_current() == Seq::new(
                old(self).spec_periods().len(),
                |k: int| Some(bucket_of(ts as int, old(self).spec_periods()[k]) as i64),
            ),
    {
        let n = self.periods.len();
        let ghost cur0 = self.current@;
        let mut out: Vec<BucketStep> = Vec::new();
        let mut next: Vec<Option<i64>> = Vec::new();
        let mut k: usize = 0;
        while k < n
            invariant
                n == self.periods@.len(),
                self.wf(),
                self.periods@ == old(self).periods@,
                self.current@ == cur0,
                cur0 == old(self).spec_current(),
                forall|q: int| 0 <= q < n ==> fits(ts as int, #[trigger] old(self).spec_periods()[q]),
                k <= n,
                out@.len() == k,
                next@.len() == k,
                forall|q: int|
                    0 <= q < k ==> #[trigger] out@[q] == step_of(cur0[q], ts as int, old(self).spec_periods()[q]),
                forall|q: int|
                    0 <= q < k ==> #[trigger] next@[q] == Some(
                        bucket_of(ts as int, old(self).spec_periods()[q]) as i64,
                    ),
            decreases n - k,
        {
            let ms = self.periods[k].as_ms();
            assert(old(self).spec_periods()[k as int] == ms);
            assert(fits(ts as int, old(self).spec_periods()[k as int]));
            let open = self.periods[k].bucket_start(ts);
            let close = open + ms;
            let step = match self.current[k] {
                None => BucketStep::Start { open_time: open, close_time: close },
                Some(c) => if c == open {
                    BucketStep::Merge
                } else {
                    BucketStep::Roll { open_time: open, close_time: close }
                },
            };
            out.push(step);
            next.push(Some(open));
            k = k + 1;
        }
        self.current = next;
        proof {
            assert(self.spec_current() =~= Seq::new(
                old(self).spec_periods().len(),
                |k: int| Some(bucket_of(ts as int, old(self).spec_periods()[k]) as i64),
            ));
        }
        out
    }

    /// Ends the stream: returns the timeframes, in order, whose in-progress candle is
    /// closed now, and forgets every in-progress candle.
    pub fn flush(&mut self) -> (r: Vec<usize>)
        requires
            old(self).wf(),
        ensures
            final(self).wf(),
            final(self).spec_periods() == old(self).spec_periods(),
            final(self).spec_current() == Seq::new(old(self).spec_periods().len(), |k: int| None::<i64>),
            r@ == open_slots(old(self).spec_current(), old(self).spec_current().len() as int),
    {
        let n = self.current.len();
        let ghost cur0 = self.current@;
        let mut out: Vec<usize> = Vec::new();
        let mut k: usize = 0;
        while k < n
            invariant
                n == cur0.len(),
                self.current@ == cur0,
                k <= n,
                out@ == open_slots(cur0, k as int),
            decreases n - k,
        {
            if self.current[k].is_some() {
                out.push(k);
            }
            k = k + 1;
        }
        let mut cleared: Vec<Option<i64>> = Vec::new();
        let mut q: usize = 0;
        while q < n
            invariant
                q <= n,
                cleared@ == Seq::new(q as nat, |i: int| None::<i64>),
            decreases n - q,
        {
            cleared.push(None);
            q = q + 1;
            assert(cleared@ =~= Seq::new(q as nat, |i: int| None::<i64>));
        }
        self.current = cleared;
        out
    }
}

/// The positions below `n` that hold a candle, in order.
pub open spec fn open_slots(cur: Seq<Option<i64>>, n: int) -> Seq<usize>
    decreases n,
{
    if n <= 0 {
        Seq::empty()
    } else if cur[n - 1] is Some {
        open_slots(cur, n - 1).push((n - 1) as usize)
    } else {
        open_slots(cur, n - 1)
    }
}

/// Bars whose timestamps all fall in the bucket opening at `open`, followed by one bar
/// of another bucket, drive a timeframe with no candle in progress through exactly:
/// one start, a merge for each further bar of the bucket, then one close-and-start
/// when the bar of the next bucket arrives.
pub proof fn lemma_one_bucket(ms: int, open: int, tss: Seq<i64>, next: i64)
    requires
        ms > 0,
        tss.len() > 0,
        forall|k: int| 0 <= k < tss.len() ==> bucket_of(#[trigger] tss[k] as int, ms) == open,
        bucket_of(next as int, ms) != open,
        i64::MIN <= open,
        open + ms <= i64::MAX,
    ensures
        steps_from(None, tss.push(next), ms) == seq![
            BucketStep::Start { open_time: open as i64, close_time: (open + ms) as i64 },
        ] + Seq::new((tss.len() - 1) as nat, |k: int| BucketStep::Merge) + seq![
            BucketStep::Roll {
                open_time: bucket_of(next as int, ms) as i64,
                close_time: (bucket_of(next as int, ms) + ms) as i64,
            },
        ],
{
    let rest = tss.push(next).drop_first();
    assert(rest =~= tss.drop_first().push(next));
    lemma_merges(ms, open, tss.drop_first(), next);
    let merges = Seq::new((tss.len() - 1) as nat, |k: int| BucketStep::Merge);
    let roll = seq![
        BucketStep::Roll {
            open_time: bucket_of(next as int, ms) as i64,
            close_time: (bucket_of(next as int, ms) + ms) as i64,
        },
    ];
    assert(seq![BucketStep::Start { open_time: open as i64, close_time: (open + ms) as i64 }]
        + (merges + roll) =~= seq![
        BucketStep::Start { open_time: open as i64, close_time: (open + ms) as i64 },
    ] + merges + roll);
}

proof fn lemma_merges(ms: int, open: int, tss: Seq<i64>, next: i64)
    requires
        ms > 0,
        forall|k: int| 0 <= k < tss.len() ==> bucket_of(#[trigger] tss[k] as int, ms) == open,
        bucket_of(next as int, ms) != open,
        i64::MIN <= open <= i64::MAX,
    ensures
        steps_from(Some(open as i64), tss.push(next), ms) == Seq::new(tss.len(), |k: int| BucketStep::Merge)
            + seq![
            BucketStep::Roll {
                open_time: bucket_of(next as int, ms) as i64,
                close_time: (bucket_of(next as int, ms) + ms) as i64,
            },
        ],
    decreases tss.len(),
{
    let roll = seq![
        BucketStep::Roll {
            open_time: bucket_of(next as int, ms) as i64,
            close_time: (bucket_of(next as int, ms) + ms) as i64,
        },
    ];
    if tss.len() == 0 {
        assert(tss.push(next) =~= seq![next]);
        assert(seq![next].drop_first() =~= Seq::<i64>::empty());
        assert(steps_from(Some(bucket_of(next as int, ms) as i64), Seq::<i64>::empty(), ms) =~= Seq::empty());
        assert(step_of(Some(open as i64), next as int, ms) == roll[0]);
        assert(steps_from(Some(open as i64), seq![next], ms) =~= roll);
        assert(Seq::new(0, |k: int| BucketStep::Merge) + roll =~= roll);
    } else {
        let t = tss.drop_first();
        assert forall|k: int| 0 <= k < t.len() implies bucket_of(#[trigger] t[k] as int, ms) == open by {
            assert(t[k] == tss[k + 1]);
        }
        lemma_merges(ms, open, t, next);
        assert(tss.push(next).drop_first() =~= t.push(next));
        assert(tss.push(next)[0] == tss[0]);
        assert(step_of(Some(open as i64), tss[0] as int, ms) == BucketStep::Merge);
        assert(steps_from(Some(open as i64), tss.push(next), ms) == seq![BucketStep::Merge]
            + steps_from(Some(open as i64), t.push(next), ms));
        assert(Seq::new(tss.len(), |k: int| BucketStep::Merge) + roll =~= seq![BucketStep::Merge] + (
        Seq::new(t.len(), |k: int| BucketStep::Merge) + roll));
    }
}

} // verus!
