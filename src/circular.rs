use vstd::arithmetic::div_mod::{lemma_fundamental_div_mod_converse_mod, lemma_small_mod};
use vstd::prelude::*;

verus! {

/// An index past the end of a ring of size `c`, by less than `c`, wraps once.
proof fn lemma_wrap(x: int, c: int)
    requires
        0 < c,
        0 <= x < 2 * c,
    ensures
        x % c == (if x < c {
            x
        } else {
            x - c
        }),
{
    if x < c {
        lemma_small_mod(x as nat, c as nat);
    } else {
        lemma_fundamental_div_mod_converse_mod(x, c, 1, x - c);
    }
}

/// The live values after pushing `v` onto `cur` in a column of capacity `cap`.
pub open spec fn pushed<T>(cap: nat, cur: Seq<T>, v: T) -> Seq<T> {
    if cur.len() < cap {
        cur.push(v)
    } else {
        cur.drop_first().push(v)
    }
}

/// Length and elements of `pushed(cap, cur, v)` for a sequence within capacity.
pub proof fn lemma_pushed<T>(cap: nat, cur: Seq<T>, v: T)
    requires
        cur.len() <= cap,
        cap > 0,
    ensures
        pushed(cap, cur, v).len() == (if cur.len() < cap {
            cur.len() + 1
        } else {
            cur.len()
        }),
        forall|i: int|
            0 <= i < pushed(cap, cur, v).len() ==> #[trigger] pushed(cap, cur, v)[i] == (if i
                == pushed(cap, cur, v).len() - 1 {
                v
            } else if cur.len() < cap {
                cur[i]
            } else {
                cur[i + 1]
            }),
{
}

/// The live values after pushing each of `vals` in turn onto `cur`.
pub open spec fn pushed_all<T>(cap: nat, cur: Seq<T>, vals: Seq<T>) -> Seq<T>
    decreases vals.len(),
{
    if vals.len() == 0 {
        cur
    } else {
        pushed(cap, pushed_all(cap, cur, vals.drop_last()), vals.last())
    }
}

/// The last `min(n, |s|)` elements of `s`, in order.
pub open spec fn last_n<T>(s: Seq<T>, n: nat) -> Seq<T> {
    if s.len() <= n {
        s
    } else {
        s.subrange(s.len() - n, s.len() as int)
    }
}

/// A column of capacity `cap` that starts empty holds exactly the last `cap` values
/// pushed into it (all of them while fewer were pushed), oldest first.
pub proof fn lemma_keeps_last<T>(cap: nat, vals: Seq<T>)
    requires
        cap > 0,
    ensures
        pushed_all(cap, Seq::<T>::empty(), vals) == last_n(vals, cap),
    decreases vals.len(),
{
    if vals.len() > 0 {
        let init = vals.drop_last();
        lemma_keeps_last(cap, init);
        if init.len() < cap {
            assert(init.push(vals.last()) =~= vals);
        } else {
            assert(last_n(init, cap).drop_first().push(vals.last()) =~= last_n(vals, cap));
        }
    }
}

/// Fixed-capacity ring buffer: append-only, overwriting the oldest value once full.
///
/// The backing storage is reserved once at construction and never reallocated;
/// it fills up to `capacity` and is then overwritten in place at `head`.
#[derive(Clone, Debug)]
pub struct CircularColumn<T: Copy + Default> {
    capacity: usize,
    len: usize,
    /// Next write index.
    head: usize,
    data: Vec<T>,
}

impl<T: Copy + Default> View for CircularColumn<T> {
    type V = Seq<T>;

    /// The live values, oldest first.
    closed spec fn view(&self) -> Seq<T> {
        Seq::new(self.len as nat, |i: int| self.data@[self.slot(i)])
    }
}

impl<T: Copy + Default> CircularColumn<T> {
    /// The fixed capacity chosen at construction.
    pub closed spec fn cap(&self) -> nat {
        self.capacity as nat
    }

    /// Position in storage of the oldest live value.
    closed spec fn first_slot(&self) -> int {
        if self.len < self.capacity {
            0
        } else {
            self.head as int
        }
    }

    /// Position in storage of the `i`-th oldest live value.
    closed spec fn slot(&self, i: int) -> int {
        (self.first_slot() + i) % (self.capacity as int)
    }

    pub closed spec fn wf(&self) -> bool {
        &&& self.capacity > 0
        &&& self.len <= self.capacity
        &&& self.head < self.capacity
        &&& self.data@.len() == self.len
        &&& (self.len < self.capacity ==> self.head == self.len)
    }

    /// Creates an empty column that holds at most `capacity` values.
    /// A column never holds more than its capacity.
    pub proof fn lemma_bounded(&self)
        requires
            self.wf(),
        ensures
            self@.len() <= self.cap(),
            self.cap() > 0,
    {
    }

    pub fn new(capacity: usize) -> (r: Self)
        requires
            capacity > 0,
        ensures
            r.wf(),
            r.cap() == capacity,
            r@ == Seq::<T>::empty(),
    {
        let r = CircularColumn { capacity, len: 0, head: 0, data: Vec::with_capacity(capacity) };
        assert(r@ =~= Seq::<T>::empty());
        r
    }

    pub fn capacity(&self) -> (r: usize)
        requires
            self.wf(),
        ensures
            r == self.cap(),
    {
        self.capacity
    }

    pub fn len(&self) -> (r: usize)
        requires
            self.wf(),
        ensures
            r == self@.len(),
            r <= self.cap(),
    {
        self.len
    }

    pub fn is_empty(&self) -> (r: bool)
        requires
            self.wf(),
        ensures
            r == (self@.len() == 0),
    {
        self.len == 0
    }

    pub fn is_full(&self) -> (r: bool)
        requires
            self.wf(),
        ensures
            r == (self@.len() == self.cap()),
    {
        self.len == self.capacity
    }

    /// Storage index of the oldest value.
    fn start(&self) -> (r: usize)
        requires
            self.wf(),
        ensures
            r == self.first_slot(),
            r < self.capacity,
    {
        let r = (self.head + (self.capacity - self.len)) % self.capacity;
        proof {
            lemma_wrap(self.head + self.capacity - self.len, self.capacity as int);
        }
        r
    }

    fn idx_from_oldest(&self, i: usize) -> (r: usize)
        requires
            self.wf(),
            i < self.len,
        ensures
            r == self.slot(i as int),
            r < self.data@.len(),
    {
        let s = self.start();
        let r = ((s as u128 + i as u128) % (self.capacity as u128)) as usize;
        proof {
            lemma_wrap(s + i, self.capacity as int);
        }
        r
    }

    /// Appends `v`; when the column is full the oldest value is dropped.
    pub fn push(&mut self, v: T)
        requires
            old(self).wf(),
        ensures
            final(self).wf(),
            final(self).cap() == old(self).cap(),
            final(self)@ == pushed(old(self).cap(), old(self)@, v),
    {
        let ghost prev = self@;
        let cap = self.capacity;
        if self.len < cap {
            self.data.push(v);
            self.len = self.len + 1;
            self.head = (self.head + 1) % cap;
            proof {
                let c = cap as int;
                lemma_wrap(old(self).head + 1, c);
                assert forall|i: int| 0 <= i < self.len implies #[trigger] self.slot(i) == i by {
                    lemma_wrap(i, c);
                }
                assert forall|i: int| 0 <= i < prev.len() implies #[trigger] old(self).slot(i)
                    == i by {
                    lemma_wrap(i, c);
                }
                assert(self@ =~= prev.push(v));
            }
        } else {
            let h = self.head;
            self.data.set(h, v);
            self.head = (h + 1) % cap;
            proof {
                let c = cap as int;
                lemma_wrap(h + 1, c);
                assert forall|i: int| 0 <= i < c implies #[trigger] self.slot(i) == (h + 1 + i)
                    % c by {
                    lemma_wrap(h + 1 + i, c);
                    lemma_wrap(self.head + i, c);
                }
                assert forall|i: int| 0 <= i < c implies #[trigger] self@[i] == (if i == c - 1 {
                    v
                } else {
                    prev[i + 1]
                }) by {
                    lemma_wrap(h + 1 + i, c);
                    assert(old(self).slot(i + 1) == (h + 1 + i) % c);
                }
                assert(self@ =~= prev.drop_first().push(v));
            }
        }
    }

    /// Replaces the most recently pushed value; does nothing when empty.
    pub fn update_last(&mut self, v: T)
        requires
            old(self).wf(),
        ensures
            final(self).wf(),
            final(self).cap() == old(self).cap(),
            final(self)@ == (if old(self)@.len() == 0 {
                old(self)@
            } else {
                old(self)@.update(old(self)@.len() - 1, v)
            }),
    {
        if self.len == 0 {
            return;
        }
        let i = self.len - 1;
        self.update(i, v);
    }

    /// The `i`-th oldest value (0 = oldest).
    pub fn get(&self, i: usize) -> (r: Option<T>)
        requires
            self.wf(),
        ensures
            r == (if i < self@.len() {
                Some(self@[i as int])
            } else {
                None::<T>
            }),
    {
        if i >= self.len {
            return None;
        }
        Some(self.data[self.idx_from_oldest(i)])
    }

    /// The `i`-th newest value (0 = newest).
    pub fn get_from_end(&self, i: usize) -> (r: Option<T>)
        requires
            self.wf(),
        ensures
            r == (if i < self@.len() {
                Some(self@[self@.len() - 1 - i])
            } else {
                None::<T>
            }),
    {
        if i >= self.len {
            return None;
        }
        self.get(self.len - 1 - i)
    }

    /// Overwrites the `i`-th oldest value; does nothing when `i` is out of range.
    pub fn update(&mut self, i: usize, v: T)
        requires
            old(self).wf(),
        ensures
            final(self).wf(),
            final(self).cap() == old(self).cap(),
            final(self)@ == (if i < old(self)@.len() {
                old(self)@.update(i as int, v)
            } else {
                old(self)@
            }),
    {
        if i >= self.len {
            return;
        }
        let ghost prev = self@;
        let idx = self.idx_from_oldest(i);
        self.data.set(idx, v);
        proof {
            assert forall|j: int| 0 <= j < self.len implies #[trigger] self.slot(j) == idx
                ==> j == i by {
                lemma_wrap(self.first_slot() + j, self.capacity as int);
                lemma_wrap(self.first_slot() + i, self.capacity as int);
            }
            assert forall|j: int| 0 <= j < self.len implies #[trigger] self@[j] == prev.update(
                i as int,
                v,
            )[j] by {
                lemma_wrap(self.first_slot() + j, self.capacity as int);
                assert(self.slot(j) == old(self).slot(j));
                if j != i {
                    assert(self.slot(j) != idx);
                }
            }
            assert(self@ =~= prev.update(i as int, v));
        }
    }

    /// The backing storage with its ring metadata: (storage, capacity, length, next write index).
    ///
    /// Storage order is not chronological once the column has wrapped: the `i`-th oldest
    /// value sits at `(head + capacity - length + i) % capacity`.
    pub fn raw_parts(&self) -> (r: (&[T], usize, usize, usize))
        requires
            self.wf(),
        ensures
            r.1 == self.cap(),
            r.2 == self@.len(),
            r.3 < r.1,
            r.0@.len() == r.2,
            forall|i: int|
                0 <= i < r.2 ==> #[trigger] self@[i] == r.0@[(r.3 + r.1 - r.2 + i) % (r.1 as int)],
    {
        proof {
            assert forall|i: int| 0 <= i < self.len implies (self.head + self.capacity - self.len
                + i) % (self.capacity as int) == #[trigger] self.slot(i) by {
                lemma_wrap(self.head + self.capacity - self.len + i, self.capacity as int);
                lemma_wrap(self.first_slot() + i, self.capacity as int);
            }
        }
        (self.data.as_slice(), self.capacity, self.len, self.head)
    }

    /// Copies the live values out, oldest first.
    pub fn to_vec_ordered(&self) -> (r: Vec<T>)
        requires
            self.wf(),
        ensures
            r@ == self@,
    {
        let mut out: Vec<T> = Vec::with_capacity(self.len);
        let mut i: usize = 0;
        while i < self.len
            invariant
                self.wf(),
                i <= self.len,
                out@ == self@.take(i as int),
            decreases self.len - i,
        {
            let v = self.data[self.idx_from_oldest(i)];
            out.push(v);
            i = i + 1;
            assert(out@ =~= self@.take(i as int));
        }
        assert(self@.take(self.len as int) =~= self@);
        out
    }
}

} // verus!
