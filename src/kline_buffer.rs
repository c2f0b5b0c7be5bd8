//! Columnar bar history: seven ring-buffer columns sharing one length and capacity.
use crate::circular::{lemma_pushed, pushed, CircularColumn};
use crate::types::Field;
use vstd::prelude::*;

verus! {

/// One OHLCV bar (with buy volume) whose values are of type `V`.
#[derive(Debug, Clone, Copy)]
pub struct BarT<V> {
    pub timestamp: i64,
    pub open: V,
    pub high: V,
    pub low: V,
    pub close: V,
    pub volume: V,
    pub buy_volume: V,
}

impl<V: Copy> BarT<V> {
    pub fn new(timestamp: i64, open: V, high: V, low: V, close: V, volume: V, buy_volume: V) -> (r: Self)
        ensures
            r == (BarT { timestamp, open, high, low, close, volume, buy_volume }),
    {
        BarT { timestamp, open, high, low, close, volume, buy_volume }
    }
}

/// The value of `field` in `b`.
pub open spec fn field_of<V>(b: BarT<V>, field: Field) -> V {
    match field {
        Field::Open => b.open,
        Field::High => b.high,
        Field::Low => b.low,
        Field::Close => b.close,
        Field::Volume => b.volume,
        Field::BuyVolume => b.buy_volume,
    }
}

#[derive(Debug, Clone)]
pub struct KlineBuffer<V: Copy + Default> {
    ts: CircularColumn<i64>,
    open: CircularColumn<V>,
    high: CircularColumn<V>,
    low: CircularColumn<V>,
    close: CircularColumn<V>,
    volume: CircularColumn<V>,
    buy_volume: CircularColumn<V>,
}

impl<V: Copy + Default> View for KlineBuffer<V> {
    type V = Seq<BarT<V>>;

    /// The stored bars, oldest first.
    closed spec fn view(&self) -> Seq<BarT<V>> {
        Seq::new(
            self.close@.len(),
            |i: int|
                BarT {
                    timestamp: self.ts@[i],
                    open: self.open@[i],
                    high: self.high@[i],
                    low: self.low@[i],
                    close: self.close@[i],
                    volume: self.volume@[i],
                    buy_volume: self.buy_volume@[i],
                },
        )
    }
}

impl<V: Copy + Default> KlineBuffer<V> {
    pub closed spec fn cap(&self) -> nat {
        self.close.cap()
    }

    pub closed spec fn wf(&self) -> bool {
        &&& self.ts.wf() && self.open.wf() && self.high.wf() && self.low.wf()
        &&& self.close.wf() && self.volume.wf() && self.buy_volume.wf()
        &&& self.ts.cap() == self.close.cap() && self.open.cap() == self.close.cap()
        &&& self.high.cap() == self.close.cap() && self.low.cap() == self.close.cap()
        &&& self.volume.cap() == self.close.cap() && self.buy_volume.cap() == self.close.cap()
        &&& self.ts@.len() == self.close@.len() && self.open@.len() == self.close@.len()
        &&& self.high@.len() == self.close@.len() && self.low@.len() == self.close@.len()
        &&& self.volume@.len() == self.close@.len() && self.buy_volume@.len() == self.close@.len()
    }

    pub fn new(capacity: usize) -> (r: Self)
        requires
            capacity > 0,
        ensures
            r.wf(),
            r.cap() == capacity,
            r@ == Seq::<BarT<V>>::empty(),
    {
        let r = KlineBuffer {
            ts: CircularColumn::new(capacity),
            open: CircularColumn::new(capacity),
            high: CircularColumn::new(capacity),
            low: CircularColumn::new(capacity),
            close: CircularColumn::new(capacity),
            volume: CircularColumn::new(capacity),
            buy_volume: CircularColumn::new(capacity),
        };
        assert(r@ =~= Seq::<BarT<V>>::empty());
        r
    }

    pub fn capacity(&self) -> (r: usize)
        requires
            self.wf(),
        ensures
            r == self.cap(),
    {
        self.close.capacity()
    }

    pub fn len(&self) -> (r: usize)
        requires
            self.wf(),
        ensures
            r == self@.len(),
    {
        self.close.len()
    }

    pub fn is_empty(&self) -> (r: bool)
        requires
            self.wf(),
        ensures
            r == (self@.len() == 0),
    {
        self.close.is_empty()
    }

    /// Appends a bar; when full the oldest bar is dropped.
    pub fn push(&mut self, bar: BarT<V>)
        requires
            old(self).wf(),
        ensures
            final(self).wf(),
            final(self).cap() == old(self).cap(),
            final(self)@ == pushed(old(self).cap(), old(self)@, bar),
    {
        proof {
            let c = old(self).cap();
            old(self).close.lemma_bounded();
            lemma_pushed(c, old(self).ts@, bar.timestamp);
            lemma_pushed(c, old(self).open@, bar.open);
            lemma_pushed(c, old(self).high@, bar.high);
            lemma_pushed(c, old(self).low@, bar.low);
            lemma_pushed(c, old(self).close@, bar.close);
            lemma_pushed(c, old(self).volume@, bar.volume);
            lemma_pushed(c, old(self).buy_volume@, bar.buy_volume);
            lemma_pushed(c, old(self)@, bar);
        }
        self.ts.push(bar.timestamp);
        self.open.push(bar.open);
        self.high.push(bar.high);
        self.low.push(bar.low);
        self.close.push(bar.close);
        self.volume.push(bar.volume);
        self.buy_volume.push(bar.buy_volume);
        assert(self@ =~= pushed(old(self).cap(), old(self)@, bar));
    }

    /// Replaces the last bar and returns the bar it replaced; does nothing when empty.
    pub fn update_last(&mut self, bar: BarT<V>) -> (r: Option<BarT<V>>)
        requires
            old(self).wf(),
        ensures
            final(self).wf(),
            final(self).cap() == old(self).cap(),
            old(self)@.len() == 0 ==> r is None && final(self)@ == old(self)@,
            old(self)@.len() > 0 ==> r == Some(old(self)@.last()) && final(self)@ == old(self)@.update(
                old(self)@.len() - 1,
                bar,
            ),
    {
        let old_bar = self.last();
        self.ts.update_last(bar.timestamp);
        self.open.update_last(bar.open);
        self.high.update_last(bar.high);
        self.low.update_last(bar.low);
        self.close.update_last(bar.close);
        self.volume.update_last(bar.volume);
        self.buy_volume.update_last(bar.buy_volume);
        proof {
            if old(self)@.len() == 0 {
                assert(self@ =~= old(self)@);
            } else {
                assert(self@ =~= old(self)@.update(old(self)@.len() - 1, bar));
            }
        }
        old_bar
    }

    /// The `i`-th oldest bar.
    pub fn get(&self, i: usize) -> (r: Option<BarT<V>>)
        requires
            self.wf(),
        ensures
            r == (if i < self@.len() {
                Some(self@[i as int])
            } else {
                None::<BarT<V>>
            }),
    {
        if i >= self.close.len() {
            return None;
        }
        Some(
            BarT {
                timestamp: self.ts.get(i).unwrap(),
                open: self.open.get(i).unwrap(),
                high: self.high.get(i).unwrap(),
                low: self.low.get(i).unwrap(),
                close: self.close.get(i).unwrap(),
                volume: self.volume.get(i).unwrap(),
                buy_volume: self.buy_volume.get(i).unwrap(),
            },
        )
    }

    /// The newest bar.
    pub fn last(&self) -> (r: Option<BarT<V>>)
        requires
            self.wf(),
        ensures
            r == (if self@.len() > 0 {
                Some(self@.last())
            } else {
                None::<BarT<V>>
            }),
    {
        let n = self.close.len();
        if n == 0 {
            None
        } else {
            self.get(n - 1)
        }
    }

    /// The value of `field` in the `i`-th oldest bar.
    pub fn get_f64(&self, field: Field, i: usize) -> (r: Option<V>)
        requires
            self.wf(),
        ensures
            r == (if i < self@.len() {
                Some(field_of(self@[i as int], field))
            } else {
                None::<V>
            }),
    {
        match field {
            Field::Open => self.open.get(i),
            Field::High => self.high.get(i),
            Field::Low => self.low.get(i),
            Field::Close => self.close.get(i),
            Field::Volume => self.volume.get(i),
            Field::BuyVolume => self.buy_volume.get(i),
        }
    }

    /// The value of `field` in the newest bar.
    pub fn last_f64(&self, field: Field) -> (r: Option<V>)
        requires
            self.wf(),
        ensures
            r == (if self@.len() > 0 {
                Some(field_of(self@.last(), field))
            } else {
                None::<V>
            }),
    {
        let n = self.close.len();
        if n == 0 {
            None
        } else {
            self.get_f64(field, n - 1)
        }
    }

    /// The column of `field`, for zero-copy export.
    pub fn column(&self, field: Field) -> (r: &CircularColumn<V>)
        requires
            self.wf(),
        ensures
            r.wf(),
            r.cap() == self.cap(),
            r@ == self@.map_values(|b: BarT<V>| field_of(b, field)),
    {
        let r = match field {
            Field::Open => &self.open,
            Field::High => &self.high,
            Field::Low => &self.low,
            Field::Close => &self.close,
            Field::Volume => &self.volume,
            Field::BuyVolume => &self.buy_volume,
        };
        assert(r@ =~= self@.map_values(|b: BarT<V>| field_of(b, field)));
        r
    }

    /// The timestamp column, for zero-copy export.
    pub fn timestamp(&self) -> (r: &CircularColumn<i64>)
        requires
            self.wf(),
        ensures
            r.wf(),
            r.cap() == self.cap(),
            r@ == self@.map_values(|b: BarT<V>| b.timestamp),
    {
        assert(self.ts@ =~= self@.map_values(|b: BarT<V>| b.timestamp));
        &self.ts
    }

    pub fn open(&self) -> (r: &CircularColumn<V>)
        requires
            self.wf(),
        ensures
            r@ == self@.map_values(|b: BarT<V>| b.open),
    {
        self.column(Field::Open)
    }

    pub fn high(&self) -> (r: &CircularColumn<V>)
        requires
            self.wf(),
        ensures
            r@ == self@.map_values(|b: BarT<V>| b.high),
    {
        self.column(Field::High)
    }

    pub fn low(&self) -> (r: &CircularColumn<V>)
        requires
            self.wf(),
        ensures
            r@ == self@.map_values(|b: BarT<V>| b.low),
    {
        self.column(Field::Low)
    }

    pub fn close(&self) -> (r: &CircularColumn<V>)
        requires
            self.wf(),
        ensures
            r@ == self@.map_values(|b: BarT<V>| b.close),
    {
        self.column(Field::Close)
    }

    pub fn volume(&self) -> (r: &CircularColumn<V>)
        requires
            self.wf(),
        ensures
            r@ == self@.map_values(|b: BarT<V>| b.volume),
    {
        self.column(Field::Volume)
    }

    pub fn buy_volume(&self) -> (r: &CircularColumn<V>)
        requires
            self.wf(),
        ensures
            r@ == self@.map_values(|b: BarT<V>| b.buy_volume),
    {
        self.column(Field::BuyVolume)
    }
}

} // verus!
