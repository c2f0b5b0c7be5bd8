//! Candle periods written as `<count><unit>` (`500ms`, `15m`, `4h`, `1d`).
use crate::text::{chars_of, digits_value, is_digit, is_digit_char, trim_bounds, trimmed};
use vstd::arithmetic::div_mod::lemma_fundamental_div_mod_converse_mod;
use vstd::prelude::*;

verus! {

#[derive(Debug, Clone, Copy, PartialEq, Eq, Hash)]
pub enum PeriodUnit {
    Ms,
    S,
    M,
    H,
    D,
}

/// Why a period text was rejected.
#[derive(Debug, Clone, Copy, PartialEq, Eq, Structural, Hash)]
pub enum PeriodError {
    /// Nothing but whitespace.
    Empty,
    /// The text does not start with a digit.
    MissingNumber,
    /// The count does not fit in an `i64`.
    InvalidNumber,
    /// The count is zero.
    NotPositive,
    /// The unit is none of ms, s, m, h, d.
    UnsupportedUnit,
    /// The length in milliseconds does not fit in an `i64`.
    TooLarge,
}

impl PeriodError {
    pub fn message(&self) -> (r: &'static str)
        ensures
            r@ == (match *self {
                PeriodError::Empty => "empty period"@,
                PeriodError::MissingNumber => "missing number"@,
                PeriodError::InvalidNumber => "invalid number"@,
                PeriodError::NotPositive => "period must be > 0"@,
                PeriodError::UnsupportedUnit => "unsupported unit (use ms/s/m/h/d)"@,
                PeriodError::TooLarge => "period too large"@,
            }),
    {
        match self {
            PeriodError::Empty => "empty period",
            PeriodError::MissingNumber => "missing number",
            PeriodError::InvalidNumber => "invalid number",
            PeriodError::NotPositive => "period must be > 0",
            PeriodError::UnsupportedUnit => "unsupported unit (use ms/s/m/h/d)",
            PeriodError::TooLarge => "period too large",
        }
    }
}

/// A positive length of time in milliseconds.
#[derive(Debug, Clone, Copy, PartialEq, Eq, Structural, Hash)]
pub struct Period {
    ms: i64,
}

/// Number of leading decimal digits of `s`.
pub open spec fn digit_run(s: Seq<char>) -> nat
    decreases s.len(),
{
    if s.len() > 0 && is_digit(s[0]) {
        1 + digit_run(s.drop_first())
    } else {
        0
    }
}

/// Milliseconds per unit, for a unit text compared without regard to ASCII case.
pub open spec fn unit_factor(u: Seq<char>) -> Option<int> {
    if u.len() == 2 && (u[0] == 'm' || u[0] == 'M') && (u[1] == 's' || u[1] == 'S') {
        Some(1)
    } else if u.len() == 1 && (u[0] == 's' || u[0] == 'S') {
        Some(1000)
    } else if u.len() == 1 && (u[0] == 'm' || u[0] == 'M') {
        Some(60_000)
    } else if u.len() == 1 && (u[0] == 'h' || u[0] == 'H') {
        Some(3_600_000)
    } else if u.len() == 1 && (u[0] == 'd' || u[0] == 'D') {
        Some(86_400_000)
    } else {
        None
    }
}

/// The length in milliseconds that a period text denotes, or why it is rejected.
///
/// Surrounding whitespace is ignored, as is whitespace between count and unit.
pub open spec fn period_ms_of(s: Seq<char>) -> Result<int, PeriodError> {
    let t = trimmed(s);
    let d = digit_run(t);
    let n = digits_value(t.take(d as int));
    let unit = trimmed(t.skip(d as int));
    if t.len() == 0 {
        Err(PeriodError::Empty)
    } else if d == 0 {
        Err(PeriodError::MissingNumber)
    } else if n > i64::MAX {
        Err(PeriodError::InvalidNumber)
    } else if n == 0 {
        Err(PeriodError::NotPositive)
    } else if unit_factor(unit) is None {
        Err(PeriodError::UnsupportedUnit)
    } else if n * unit_factor(unit).unwrap() > i64::MAX {
        Err(PeriodError::TooLarge)
    } else {
        Ok(n * unit_factor(unit).unwrap())
    }
}

/// The length in milliseconds of a `@period` suffix such as `4h`.
pub fn period_suffix_to_ms(suffix: &str) -> (r: Result<i64, PeriodError>)
    ensures
        match period_ms_of(suffix@) {
            Ok(ms) => r == Ok::<i64, PeriodError>(ms as i64),
            Err(e) => r == Err::<i64, PeriodError>(e),
        },
{
    match Period::parse(suffix) {
        Ok(p) => Ok(p.as_ms()),
        Err(e) => Err(e),
    }
}

/// Start of the bucket of length `ms` that holds `ts`: `ts` rounded down to a multiple of `ms`.
pub open spec fn bucket_of(ts: int, ms: int) -> int {
    ts - ts % ms
}

proof fn lemma_digits_grow(s: Seq<char>, k: int)
    requires
        0 <= k <= s.len(),
    ensures
        digits_value(s.take(k)) <= digits_value(s),
    decreases s.len() - k,
{
    if k < s.len() {
        lemma_digits_grow(s.drop_last(), k);
        assert(s.drop_last().take(k) =~= s.take(k));
    } else {
        assert(s.take(k) =~= s);
    }
}

proof fn lemma_digit_run(s: Seq<char>, i: int)
    requires
        0 <= i <= s.len(),
        forall|j: int| 0 <= j < i ==> is_digit(#[trigger] s[j]),
        i == s.len() || !is_digit(s[i]),
    ensures
        digit_run(s) == i,
    decreases i,
{
    if i > 0 {
        lemma_digit_run(s.drop_first(), i - 1);
    }
}

impl Period {
    #[verifier::type_invariant]
    spec fn positive(&self) -> bool {
        self.ms > 0
    }

    /// The length in milliseconds.
    pub closed spec fn spec_ms(&self) -> i64 {
        self.ms
    }

    pub fn from_ms(ms: i64) -> (r: Self)
        requires
            ms > 0,
        ensures
            r.spec_ms() == ms,
    {
        Period { ms }
    }

    pub fn as_ms(&self) -> (r: i64)
        ensures
            r == self.spec_ms(),
            r > 0,
    {
        proof {
            use_type_invariant(self);
        }
        self.ms
    }

    /// Reads `<count><unit>`, e.g. `15m`, `4h`, `500ms`; see `period_ms_of`.
    pub fn parse(s: &str) -> (r: Result<Self, PeriodError>)
        ensures
            match period_ms_of(s@) {
                Ok(ms) => r matches Ok(p) && p.spec_ms() == ms,
                Err(e) => r == Err::<Self, PeriodError>(e),
            },
    {
        let cs = chars_of(s);
        assert(cs@.subrange(0, cs@.len() as int) =~= s@);
        Self::parse_chars(&cs, 0, cs.len())
    }

    /// Reads the period written in `cs[from..to]`.
    pub fn parse_chars(cs: &Vec<char>, from: usize, to: usize) -> (r: Result<Self, PeriodError>)
        requires
            from <= to <= cs@.len(),
        ensures
            match period_ms_of(cs@.subrange(from as int, to as int)) {
                Ok(ms) => r matches Ok(p) && p.spec_ms() == ms,
                Err(e) => r == Err::<Self, PeriodError>(e),
            },
    {
        let ghost src = cs@.subrange(from as int, to as int);
        let (a, b) = trim_bounds(cs, from, to);
        let ghost t = cs@.subrange(a as int, b as int);
        assert(t == trimmed(src));
        if a == b {
            return Err(PeriodError::Empty);
        }
        let mut d = a;
        let mut n: i64 = 0;
        while d < b && is_digit_char(cs[d])
            invariant
                a <= d <= b <= cs@.len(),
                t == cs@.subrange(a as int, b as int),
                t == trimmed(src),
                src == cs@.subrange(from as int, to as int),
                forall|j: int| 0 <= j < d - a ==> is_digit(#[trigger] t[j]),
                n == digits_value(t.take(d - a)),
            decreases b - d,
        {
            let ghost pre = t.take(d - a);
            let v = (cs[d] as u32 - '0' as u32) as i64;
            assert(t.take(d - a + 1).drop_last() =~= pre);
            if n > (i64::MAX - v) / 10 {
                proof {
                    assert(t[d - a] == cs@[d as int]);
                    lemma_run_at_least(t, d - a + 1);
                    lemma_run_bound(t);
                    lemma_digits_grow(t.take(digit_run(t) as int), d - a + 1);
                    assert(t.take(digit_run(t) as int).take(d - a + 1) =~= t.take(d - a + 1));
                    assert(n * 10 + v > i64::MAX) by (nonlinear_arith)
                        requires
                            n > (i64::MAX - v) / 10,
                            0 <= v <= 9,
                    ;
                }
                return Err(PeriodError::InvalidNumber);
            }
            n = n * 10 + v;
            d = d + 1;
        }
        proof {
            lemma_digit_run(t, d - a);
        }
        if d == a {
            return Err(PeriodError::MissingNumber);
        }
        if n == 0 {
            return Err(PeriodError::NotPositive);
        }
        let (ua, ub) = trim_bounds(&cs, d, b);
        assert(cs@.subrange(d as int, b as int) =~= t.skip(d - a));
        let ulen = ub - ua;
        let factor: i64 = if ulen == 2 && (cs[ua] == 'm' || cs[ua] == 'M') && (cs[ua + 1] == 's'
            || cs[ua + 1] == 'S') {
            1
        } else if ulen == 1 && (cs[ua] == 's' || cs[ua] == 'S') {
            1000
        } else if ulen == 1 && (cs[ua] == 'm' || cs[ua] == 'M') {
            60_000
        } else if ulen == 1 && (cs[ua] == 'h' || cs[ua] == 'H') {
            3_600_000
        } else if ulen == 1 && (cs[ua] == 'd' || cs[ua] == 'D') {
            86_400_000
        } else {
            return Err(PeriodError::UnsupportedUnit);
        };
        if n > i64::MAX / factor {
            assert(n * factor > i64::MAX) by (nonlinear_arith)
                requires
                    n > i64::MAX / factor,
                    factor > 0,
            ;
            return Err(PeriodError::TooLarge);
        }
        assert(n * factor <= i64::MAX) by (nonlinear_arith)
            requires
                n <= i64::MAX / factor,
                factor > 0,
                n > 0,
        ;
        assert(n * factor > 0) by (nonlinear_arith)
            requires
                n > 0,
                factor > 0,
        ;
        Ok(Period { ms: n * factor })
    }

    /// Start of the bucket that holds `ts_ms`: `ts_ms` rounded down to a multiple of
    /// the period, also for negative timestamps.
    pub fn bucket_start(&self, ts_ms: i64) -> (r: i64)
        requires
            bucket_of(ts_ms as int, self.spec_ms() as int) >= i64::MIN,
        ensures
            r == bucket_of(ts_ms as int, self.spec_ms() as int),
    {
        proof {
            use_type_invariant(self);
        }
        let ms = self.ms;
        if ts_ms >= 0 {
            ts_ms - ts_ms % ms
        } else {
            let x = -(ts_ms + 1);
            let q = x % ms;
            proof {
                let k = (x as int) / (ms as int);
                assert(x == k * ms + q) by {
                    vstd::arithmetic::div_mod::lemma_fundamental_div_mod(x as int, ms as int);
                }
                assert(ts_ms == (-k - 1) * ms + (ms - 1 - q)) by (nonlinear_arith)
                    requires
                        x == k * ms + q,
                        x == -(ts_ms + 1),
                ;
                lemma_fundamental_div_mod_converse_mod(ts_ms as int, ms as int, -k - 1, ms - 1 - q);
            }
            ts_ms - (ms - 1 - q)
        }
    }
}

proof fn lemma_run_bound(s: Seq<char>)
    ensures
        digit_run(s) <= s.len(),
    decreases s.len(),
{
    if s.len() > 0 {
        lemma_run_bound(s.drop_first());
    }
}

proof fn lemma_run_at_least(s: Seq<char>, k: int)
    requires
        0 <= k <= s.len(),
        forall|j: int| 0 <= j < k ==> is_digit(#[trigger] s[j]),
    ensures
        digit_run(s) >= k,
    decreases k,
{
    if k > 0 {
        lemma_run_at_least(s.drop_first(), k - 1);
    }
}

} // verus!
