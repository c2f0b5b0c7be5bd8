//! Strategy compilation: rule lines `IF <condition> THEN <action>` become compiled
//! boolean expressions over resolved indicator outputs, evaluated top-down per bar.
use crate::dsl::{
    ci_eq, ci_eq_at, cond_spans_ok, find_char, lemma_condition_spans, lemma_find_char,
    parse_condition, parse_condition_spec, text_of, CmpOp, Cond, IndicatorCall, ParseError, Span,
};
use crate::graph::{added, id_in, lemma_added_grows, lemma_id_stable, IndicatorGraph};
use vstd::string::*;
use crate::period::PeriodError;
use crate::text::{back_space, chars_of, skip_space, trim_bounds};
use crate::types::{Action, Field, IndicatorId, IndicatorSpec, MultiIndicatorRef, Signal, StrategyId, StrategyScope};
use vstd::prelude::*;

verus! {

/// Why a rule line was rejected.
#[derive(Debug, Clone, Copy, PartialEq, Eq)]
pub enum RuleError {
    /// The line does not start with `IF `.
    ExpectedIf,
    /// No ` THEN ` follows.
    MissingThen,
    /// The action is none of BUY, SELL, HOLD.
    InvalidAction,
    /// The condition does not parse.
    Condition(ParseError),
    /// A `@period` suffix in a single-timeframe strategy.
    SuffixNotAllowed,
    /// RSI over a field other than the close.
    RsiCloseOnly,
    /// A `@period` suffix that is no period.
    BadSuffix(PeriodError),
    /// A timeframe no engine is configured for.
    UnknownPeriod,
}

/// Why a strategy was not compiled.
#[derive(Debug, Clone, Copy, PartialEq, Eq)]
pub enum StrategyError {
    /// The text holds no rule.
    Empty,
    /// A cross-timeframe strategy without configured timeframes.
    NoPeriods,
    /// The first rejected line (1-based) and why.
    Parse { line: usize, reason: RuleError },
    /// The indicator graph cannot take the nodes the rules need.
    TooManyIndicators,
}

/// One comparison of a condition, in reading order.
#[derive(Debug, Clone, Copy, PartialEq, Eq)]
pub struct Leaf {
    pub call: IndicatorCall,
    pub op: CmpOp,
    pub right: Span,
}

/// Where an indicator call resolves: a timeframe slot (0 for a single timeframe) and a spec.
#[derive(Debug, Clone, Copy, PartialEq, Eq)]
pub struct Target {
    pub slot: usize,
    pub spec: IndicatorSpec,
}

/// The comparisons of `c`, left to right.
pub open spec fn leaves(c: Cond) -> Seq<Leaf>
    decreases c,
{
    match c {
        Cond::Cmp { left, op, right } => seq![Leaf { call: left, op, right }],
        Cond::And(a, b) => leaves(*a) + leaves(*b),
        Cond::Or(a, b) => leaves(*a) + leaves(*b),
        Cond::Not(x) => leaves(*x),
    }
}

/// The graph key a call asks for.
pub open spec fn spec_for(call: IndicatorCall) -> IndicatorSpec {
    match call {
        IndicatorCall::Rsi { period, .. } => IndicatorSpec::Rsi { period },
        IndicatorCall::Sma { series, period } => IndicatorSpec::Sma { field: series.field, period },
        IndicatorCall::Ema { series, period } => IndicatorSpec::Ema { field: series.field, period },
        IndicatorCall::StdDev { series, period } => IndicatorSpec::StdDev {
            field: series.field,
            period,
        },
    }
}

/// The suffix period of a call, when one is written.
pub open spec fn suffix_of(call: IndicatorCall) -> Option<Result<i64, PeriodError>> {
    match call {
        IndicatorCall::Rsi { series, .. } => match series {
            Some(sr) => sr.suffix_ms,
            None => None,
        },
        IndicatorCall::Sma { series, .. } => series.suffix_ms,
        IndicatorCall::Ema { series, .. } => series.suffix_ms,
        IndicatorCall::StdDev { series, .. } => series.suffix_ms,
    }
}

pub open spec fn rsi_off_close(call: IndicatorCall) -> bool {
    match call {
        IndicatorCall::Rsi { series, .. } => match series {
            Some(sr) => sr.field != Field::Close,
            None => false,
        },
        _ => false,
    }
}

/// Position of the first `ms` in `periods` at or after `k`, or `periods.len()`.
pub open spec fn slot_from(periods: Seq<i64>, ms: i64, k: int) -> int
    decreases periods.len() - k,
{
    if k < periods.len() && periods[k] != ms {
        slot_from(periods, ms, k + 1)
    } else {
        k
    }
}

/// Resolution of a call: single timeframe when `periods` is empty, else against the
/// configured timeframes, unsuffixed calls going to the first.
pub open spec fn resolve(periods: Seq<i64>, call: IndicatorCall) -> Result<Target, RuleError> {
    if periods.len() == 0 {
        if suffix_of(call) is Some {
            Err(RuleError::SuffixNotAllowed)
        } else if rsi_off_close(call) {
            Err(RuleError::RsiCloseOnly)
        } else {
            Ok(Target { slot: 0, spec: spec_for(call) })
        }
    } else {
        let ms = match suffix_of(call) {
            Some(r) => r,
            None => Ok(periods[0]),
        };
        match ms {
            Err(e) => Err(RuleError::BadSuffix(e)),
            Ok(m) => if rsi_off_close(call) {
                Err(RuleError::RsiCloseOnly)
            } else if slot_from(periods, m, 0) >= periods.len() {
                Err(RuleError::UnknownPeriod)
            } else {
                Ok(Target { slot: slot_from(periods, m, 0) as usize, spec: spec_for(call) })
            },
        }
    }
}

/// The first resolution error among `ls`, in order.
pub open spec fn first_error(periods: Seq<i64>, ls: Seq<Leaf>) -> Option<RuleError>
    decreases ls.len(),
{
    if ls.len() == 0 {
        None
    } else {
        match first_error(periods, ls.drop_last()) {
            Some(e) => Some(e),
            None => match resolve(periods, ls.last().call) {
                Err(e) => Some(e),
                Ok(_) => None,
            },
        }
    }
}

/// The resolved targets of `ls`, in order.
pub open spec fn targets(periods: Seq<i64>, ls: Seq<Leaf>) -> Seq<Target> {
    Seq::new(
        ls.len(),
        |k: int|
            match resolve(periods, ls[k].call) {
                Ok(t) => t,
                Err(_) => Target { slot: 0, spec: spec_for(ls[k].call) },
            },
    )
}

/// First `p` in `i..end` where ` THEN ` (any case) starts, or `end`.
pub open spec fn find_then(s: Seq<char>, i: int, end: int) -> int
    decreases end - i,
{
    if i + 6 <= end {
        if ci_eq(s.subrange(i, i + 6), seq![' ', 'T', 'H', 'E', 'N', ' ']) {
            i
        } else {
            find_then(s, i + 1, end)
        }
    } else {
        end
    }
}

pub open spec fn action_of(w: Seq<char>) -> Option<Action> {
    if ci_eq(w, seq!['B', 'U', 'Y']) || ci_eq(w, seq!['B', 'U', 'Y', '(', ')']) {
        Some(Action::Buy)
    } else if ci_eq(w, seq!['S', 'E', 'L', 'L']) || ci_eq(w, seq!['S', 'E', 'L', 'L', '(', ')']) {
        Some(Action::Sell)
    } else if ci_eq(w, seq!['H', 'O', 'L', 'D']) || ci_eq(w, seq!['H', 'O', 'L', 'D', '(', ')']) {
        Some(Action::Hold)
    } else {
        None
    }
}

/// The line `s[a..b]`: `None` when blank or a `#` comment, else its rule or its error.
#[verifier::opaque]
pub open spec fn line_rule(s: Seq<char>, periods: Seq<i64>, a: int, b: int) -> Option<
    Result<(Cond, Action), RuleError>,
> {
    let ta = skip_space(s, a, b);
    let tb = back_space(s, ta, b);
    if ta == tb || s[ta] == '#' {
        None
    } else if !(tb - ta >= 3 && ci_eq(s.subrange(ta, ta + 3), seq!['I', 'F', ' '])) {
        Some(Err(RuleError::ExpectedIf))
    } else {
        let p = find_then(s, ta, tb);
        if p + 6 > tb {
            Some(Err(RuleError::MissingThen))
        } else {
            let cf = ta + 3;
            let ct = if p > cf {
                p
            } else {
                cf
            };
            let ca = skip_space(s, cf, ct);
            let cb = back_space(s, ca, ct);
            let aa = skip_space(s, p + 6, tb);
            let ab = back_space(s, aa, tb);
            match action_of(s.subrange(aa, ab)) {
                None => Some(Err(RuleError::InvalidAction)),
                Some(act) => match parse_condition_spec(s, ca, cb) {
                    Err(e) => Some(Err(RuleError::Condition(e))),
                    Ok(c) => match first_error(periods, leaves(c)) {
                        Some(e) => Some(Err(e)),
                        None => Some(Ok((c, act))),
                    },
                },
            }
        }
    }
}

/// The rules of the lines from position `i` on, numbered from `line`.
pub open spec fn lines_from(s: Seq<char>, periods: Seq<i64>, i: int, line: nat) -> Result<
    Seq<(Cond, Action)>,
    StrategyError,
>
    decreases s.len() - i,
{
    if i < 0 || i > s.len() {
        Ok(Seq::empty())
    } else {
        let e = find_char(s, '\n', i, s.len() as int);
        proof {
            lemma_find_char(s, '\n', i, s.len() as int);
        }
        let rest = if e < s.len() {
            lines_from(s, periods, e + 1, line + 1)
        } else {
            Ok(Seq::empty())
        };
        match line_rule(s, periods, i, e) {
            None => rest,
            Some(Err(re)) => Err(StrategyError::Parse { line: line as usize, reason: re }),
            Some(Ok(r)) => match rest {
                Ok(rs) => Ok(seq![r] + rs),
                Err(x) => Err(x),
            },
        }
    }
}

/// The rules of a strategy text, or the error that rejects it.
pub open spec fn rules_spec(s: Seq<char>, periods: Seq<i64>) -> Result<Seq<(Cond, Action)>, StrategyError> {
    match lines_from(s, periods, 0, 1) {
        Err(e) => Err(e),
        Ok(rs) => if rs.len() == 0 {
            Err(StrategyError::Empty)
        } else {
            Ok(rs)
        },
    }
}


// ===== Line handling: executable =====

proof fn lemma_first_error_none(periods: Seq<i64>, ls: Seq<Leaf>)
    requires
        first_error(periods, ls) is None,
    ensures
        forall|k: int| 0 <= k < ls.len() ==> resolve(periods, (#[trigger] ls[k]).call) is Ok,
    decreases ls.len(),
{
    if ls.len() > 0 {
        lemma_first_error_none(periods, ls.drop_last());
        assert forall|k: int| 0 <= k < ls.len() implies resolve(periods, (#[trigger] ls[k]).call) is Ok by {
            if k < ls.len() - 1 {
                assert(ls[k] == ls.drop_last()[k]);
            }
        }
    }
}

/// A rule produced from text has resolvable calls and thresholds inside the text.
pub open spec fn rule_ok(r: (Cond, Action), s: Seq<char>, periods: Seq<i64>) -> bool {
    first_error(periods, leaves(r.0)) is None && cond_spans_ok(r.0, s)
}

proof fn lemma_lines_ok(s: Seq<char>, periods: Seq<i64>, i: int, line: nat)
    requires
        s.len() <= usize::MAX,
    ensures
        lines_from(s, periods, i, line) matches Ok(rs) ==> forall|k: int|
            0 <= k < rs.len() ==> rule_ok(#[trigger] rs[k], s, periods),
    decreases s.len() - i,
{
    if 0 <= i <= s.len() {
        let e = find_char(s, '\n', i, s.len() as int);
        lemma_find_char(s, '\n', i, s.len() as int);
        if e < s.len() {
            lemma_lines_ok(s, periods, e + 1, line + 1);
        }
        let ta = skip_space(s, i, e);
        let tb = back_space(s, ta, e);
        lemma_skip_back(s, i, e);
        let p = find_then(s, ta, tb);
        let cf = ta + 3;
        let ct = if p > cf { p } else { cf };
        lemma_skip_back(s, cf, ct);
        let ca = skip_space(s, cf, ct);
        let cb = back_space(s, ca, ct);
        lemma_find_then(s, ta, tb);
        if p + 6 <= tb && ta + 3 <= tb {
            lemma_condition_spans(s, ca, cb);
        }
        let rest = if e < s.len() {
            lines_from(s, periods, e + 1, line + 1)
        } else {
            Ok(Seq::empty())
        };
        reveal(line_rule);
        if let Some(Ok(r)) = line_rule(s, periods, i, e) {
            if let Ok(rs) = rest {
                assert forall|k: int| 0 <= k < (seq![r] + rs).len() implies rule_ok(
                    #[trigger] (seq![r] + rs)[k],
                    s,
                    periods,
                ) by {
                    if k > 0 {
                        assert((seq![r] + rs)[k] == rs[k - 1]);
                    }
                }
            }
        }
    }
}

proof fn lemma_skip_back(s: Seq<char>, from: int, to: int)
    requires
        from <= to,
    ensures
        from <= skip_space(s, from, to) <= to,
        skip_space(s, from, to) <= back_space(s, skip_space(s, from, to), to) <= to,
{
    lemma_skip(s, from, to);
    lemma_back(s, skip_space(s, from, to), to);
}

proof fn lemma_skip(s: Seq<char>, from: int, to: int)
    requires
        from <= to,
    ensures
        from <= skip_space(s, from, to) <= to,
    decreases to - from,
{
    if from < to && crate::text::is_space(s[from]) {
        lemma_skip(s, from + 1, to);
    }
}

proof fn lemma_back(s: Seq<char>, from: int, to: int)
    requires
        from <= to,
    ensures
        from <= back_space(s, from, to) <= to,
    decreases to - from,
{
    if to > from && crate::text::is_space(s[to - 1]) {
        lemma_back(s, from, to - 1);
    }
}

proof fn lemma_find_then(s: Seq<char>, i: int, end: int)
    requires
        i <= end,
    ensures
        i <= find_then(s, i, end) <= end,
    decreases end - i,
{
    if i + 6 <= end && !ci_eq(s.subrange(i, i + 6), seq![' ', 'T', 'H', 'E', 'N', ' ']) {
        lemma_find_then(s, i + 1, end);
    }
}

fn resolve_call(periods: &Vec<i64>, call: IndicatorCall) -> (r: Result<Target, RuleError>)
    ensures
        r == resolve(periods@, call),
{
    let suffix = match call {
        IndicatorCall::Rsi { series, .. } => match series {
            Some(sr) => sr.suffix_ms,
            None => None,
        },
        IndicatorCall::Sma { series, .. } => series.suffix_ms,
        IndicatorCall::Ema { series, .. } => series.suffix_ms,
        IndicatorCall::StdDev { series, .. } => series.suffix_ms,
    };
    let off_close = match call {
        IndicatorCall::Rsi { series, .. } => match series {
            Some(sr) => sr.field != Field::Close,
            None => false,
        },
        _ => false,
    };
    let spec = match call {
        IndicatorCall::Rsi { period, .. } => IndicatorSpec::Rsi { period },
        IndicatorCall::Sma { series, period } => IndicatorSpec::Sma { field: series.field, period },
        IndicatorCall::Ema { series, period } => IndicatorSpec::Ema { field: series.field, period },
        IndicatorCall::StdDev { series, period } => IndicatorSpec::StdDev {
            field: series.field,
            period,
        },
    };
    if periods.len() == 0 {
        if suffix.is_some() {
            return Err(RuleError::SuffixNotAllowed);
        }
        if off_close {
            return Err(RuleError::RsiCloseOnly);
        }
        return Ok(Target { slot: 0, spec });
    }
    let ms = match suffix {
        Some(Ok(m)) => m,
        Some(Err(e)) => return Err(RuleError::BadSuffix(e)),
        None => periods[0],
    };
    if off_close {
        return Err(RuleError::RsiCloseOnly);
    }
    let mut k: usize = 0;
    while k < periods.len() && periods[k] != ms
        invariant
            k <= periods@.len(),
            slot_from(periods@, ms, 0) == slot_from(periods@, ms, k as int),
        decreases periods@.len() - k,
    {
        k = k + 1;
    }
    if k >= periods.len() {
        return Err(RuleError::UnknownPeriod);
    }
    Ok(Target { slot: k, spec })
}

fn collect_leaves(c: &Cond, out: &mut Vec<Leaf>)
    ensures
        final(out)@ == old(out)@ + leaves(*c),
    decreases c,
{
    match c {
        Cond::Cmp { left, op, right } => {
            out.push(Leaf { call: *left, op: *op, right: *right });
            assert(old(out)@.push(Leaf { call: *left, op: *op, right: *right }) =~= old(out)@ + leaves(*c));
        },
        Cond::And(a, b) | Cond::Or(a, b) => {
            collect_leaves(a, out);
            collect_leaves(b, out);
            assert(old(out)@ + leaves(**a) + leaves(**b) =~= old(out)@ + leaves(*c));
        },
        Cond::Not(x) => {
            collect_leaves(x, out);
        },
    }
}

fn first_error_at(periods: &Vec<i64>, ls: &Vec<Leaf>) -> (r: Option<RuleError>)
    ensures
        r == first_error(periods@, ls@),
{
    let mut k: usize = 0;
    while k < ls.len()
        invariant
            k <= ls@.len(),
            first_error(periods@, ls@.take(k as int)) is None,
        decreases ls@.len() - k,
    {
        let res = resolve_call(periods, ls[k].call);
        assert(ls@.take(k + 1).drop_last() =~= ls@.take(k as int));
        if let Err(e) = res {
            proof {
                lemma_first_error_prefix(periods@, ls@, k + 1);
            }
            return Some(e);
        }
        k = k + 1;
    }
    assert(ls@.take(ls@.len() as int) =~= ls@);
    None
}

proof fn lemma_first_error_prefix(periods: Seq<i64>, ls: Seq<Leaf>, n: int)
    requires
        0 <= n <= ls.len(),
        first_error(periods, ls.take(n)) is Some,
    ensures
        first_error(periods, ls) == first_error(periods, ls.take(n)),
    decreases ls.len() - n,
{
    if n < ls.len() {
        assert(ls.drop_last().take(n) =~= ls.take(n));
        lemma_first_error_prefix(periods, ls.drop_last(), n);
    } else {
        assert(ls.take(n) =~= ls);
    }
}

fn find_then_at(s: &Vec<char>, i: usize, end: usize) -> (r: usize)
    requires
        i <= end <= s@.len(),
    ensures
        r == find_then(s@, i as int, end as int),
{
    let mut p = i;
    while end - p >= 6 && !ci_eq_at(s, p, p + 6, &[' ', 'T', 'H', 'E', 'N', ' '])
        invariant
            i <= p <= end <= s@.len(),
            find_then(s@, i as int, end as int) == find_then(s@, p as int, end as int),
        decreases end - p,
    {
        p = p + 1;
    }
    if end - p >= 6 {
        p
    } else {
        end
    }
}

pub fn parse_action(s: &Vec<char>, a: usize, b: usize) -> (r: Option<Action>)
    requires
        a <= b <= s@.len(),
    ensures
        r == action_of(s@.subrange(a as int, b as int)),
{
    if ci_eq_at(s, a, b, &['B', 'U', 'Y']) || ci_eq_at(s, a, b, &['B', 'U', 'Y', '(', ')']) {
        Some(Action::Buy)
    } else if ci_eq_at(s, a, b, &['S', 'E', 'L', 'L']) || ci_eq_at(s, a, b, &['S', 'E', 'L', 'L', '(', ')']) {
        Some(Action::Sell)
    } else if ci_eq_at(s, a, b, &['H', 'O', 'L', 'D']) || ci_eq_at(s, a, b, &['H', 'O', 'L', 'D', '(', ')']) {
        Some(Action::Hold)
    } else {
        None
    }
}

fn line_rule_at(s: &Vec<char>, periods: &Vec<i64>, a: usize, b: usize) -> (r: Option<
    Result<(Cond, Action), RuleError>,
>)
    requires
        a <= b <= s@.len(),
    ensures
        r == line_rule(s@, periods@, a as int, b as int),
{
    reveal(line_rule);
    let (ta, tb) = trim_bounds(s, a, b);
    if ta == tb || s[ta] == '#' {
        return None;
    }
    if !(tb - ta >= 3 && ci_eq_at(s, ta, ta + 3, &['I', 'F', ' '])) {
        return Some(Err(RuleError::ExpectedIf));
    }
    let p = find_then_at(s, ta, tb);
    proof {
        lemma_find_then(s@, ta as int, tb as int);
    }
    if tb - p < 6 {
        return Some(Err(RuleError::MissingThen));
    }
    let cf = ta + 3;
    let ct = if p > cf {
        p
    } else {
        cf
    };
    let (ca, cb) = trim_bounds(s, cf, ct);
    let (aa, ab) = trim_bounds(s, p + 6, tb);
    let act = match parse_action(s, aa, ab) {
        None => return Some(Err(RuleError::InvalidAction)),
        Some(x) => x,
    };
    let c = match parse_condition(s, ca, cb) {
        Err(e) => return Some(Err(RuleError::Condition(e))),
        Ok(c) => c,
    };
    let mut ls: Vec<Leaf> = Vec::new();
    collect_leaves(&c, &mut ls);
    assert(Seq::<Leaf>::empty() + leaves(c) =~= leaves(c));
    match first_error_at(periods, &ls) {
        Some(e) => Some(Err(e)),
        None => Some(Ok((c, act))),
    }
}

pub open spec fn prepend_rules(out: Seq<(Cond, Action)>, r: Result<Seq<(Cond, Action)>, StrategyError>) -> Result<
    Seq<(Cond, Action)>,
    StrategyError,
> {
    match r {
        Ok(rs) => Ok(out + rs),
        Err(e) => Err(e),
    }
}

/// The rules of the strategy text `s`, or the error of its first rejected line.
fn rules_at(s: &Vec<char>, periods: &Vec<i64>) -> (r: Result<Vec<(Cond, Action)>, StrategyError>)
    requires
        s@.len() < usize::MAX,
    ensures
        match lines_from(s@, periods@, 0, 1) {
            Ok(rs) => r matches Ok(v) && v@ == rs,
            Err(e) => r matches Err(e2) && e2 == e,
        },
{
    let n = s.len();
    let mut out: Vec<(Cond, Action)> = Vec::new();
    let mut i: usize = 0;
    let mut line: usize = 1;
    loop
        invariant
            n == s@.len(),
            n < usize::MAX,
            i <= n,
            line <= i + 1,
            lines_from(s@, periods@, 0, 1) == prepend_rules(out@, lines_from(s@, periods@, i as int, line as nat)),
        decreases n - i,
    {
        let e = find_newline(s, i);
        proof {
            lemma_find_char(s@, '\n', i as int, n as int);
        }
        let ghost rest = if e < n {
            lines_from(s@, periods@, e + 1, (line + 1) as nat)
        } else {
            Ok(Seq::empty())
        };
        match line_rule_at(s, periods, i, e) {
            None => {},
            Some(Err(re)) => {
                return Err(StrategyError::Parse { line, reason: re });
            },
            Some(Ok(r)) => {
                proof {
                    if let Ok(rs) = rest {
                        assert(out@ + (seq![r] + rs) =~= out@.push(r) + rs);
                    }
                }
                out.push(r);
            },
        }
        if e < n {
            i = e + 1;
            line = line + 1;
        } else {
            assert(out@ + Seq::<(Cond, Action)>::empty() =~= out@);
            return Ok(out);
        }
    }
}

fn find_newline(s: &Vec<char>, i: usize) -> (r: usize)
    requires
        i <= s@.len(),
    ensures
        r == find_char(s@, '\n', i as int, s@.len() as int),
{
    let mut k = i;
    while k < s.len() && s[k] != '\n'
        invariant
            i <= k <= s@.len(),
            find_char(s@, '\n', i as int, s@.len() as int) == find_char(s@, '\n', k as int, s@.len() as int),
        decreases s@.len() - k,
    {
        k = k + 1;
    }
    k
}


// ===== Compiled strategies =====

/// A condition over numbered comparisons.
#[derive(Debug)]
pub enum BoolExpr {
    Cmp(usize),
    And(Box<BoolExpr>, Box<BoolExpr>),
    Or(Box<BoolExpr>, Box<BoolExpr>),
    Not(Box<BoolExpr>),
}

/// `operand op threshold`, the threshold as written in the rule text.
#[derive(Debug, Clone)]
pub struct Comparison<I> {
    pub operand: I,
    pub op: CmpOp,
    pub threshold: String,
}

#[derive(Debug)]
pub struct Rule {
    pub cond: BoolExpr,
    pub action: Action,
}

/// An ordered list of rules bound to resolved indicators; immutable once compiled.
#[derive(Debug)]
pub struct CompiledStrategyT<I> {
    pub id: StrategyId,
    pub name: String,
    pub scope: StrategyScope,
    rules: Vec<Rule>,
    comparisons: Vec<Comparison<I>>,
}

pub type CompiledStrategy = CompiledStrategyT<IndicatorId>;

/// `c` with its comparisons numbered left to right from `base`.
pub open spec fn numbered(c: Cond, base: int) -> BoolExpr
    decreases c,
{
    match c {
        Cond::Cmp { .. } => BoolExpr::Cmp(base as usize),
        Cond::And(a, b) => BoolExpr::And(
            Box::new(numbered(*a, base)),
            Box::new(numbered(*b, base + leaves(*a).len())),
        ),
        Cond::Or(a, b) => BoolExpr::Or(
            Box::new(numbered(*a, base)),
            Box::new(numbered(*b, base + leaves(*a).len())),
        ),
        Cond::Not(x) => BoolExpr::Not(Box::new(numbered(*x, base))),
    }
}

/// All comparisons of the rules, rule by rule, left to right.
pub open spec fn all_leaves(rs: Seq<(Cond, Action)>) -> Seq<Leaf>
    decreases rs.len(),
{
    if rs.len() == 0 {
        Seq::empty()
    } else {
        all_leaves(rs.drop_last()) + leaves(rs.last().0)
    }
}

/// The compiled form of parsed rules.
pub open spec fn numbered_rules(rs: Seq<(Cond, Action)>) -> Seq<(BoolExpr, Action)> {
    Seq::new(rs.len(), |k: int| (numbered(rs[k].0, all_leaves(rs.take(k)).len() as int), rs[k].1))
}

/// Every comparison number in `e` is below `n`.
pub open spec fn refs_below(e: BoolExpr, n: int) -> bool
    decreases e,
{
    match e {
        BoolExpr::Cmp(k) => k < n,
        BoolExpr::And(a, b) => refs_below(*a, n) && refs_below(*b, n),
        BoolExpr::Or(a, b) => refs_below(*a, n) && refs_below(*b, n),
        BoolExpr::Not(x) => refs_below(*x, n),
    }
}

/// The value of `e` when comparison `k` holds exactly when `truth[k]`.
pub open spec fn eval(e: BoolExpr, truth: Seq<bool>) -> bool
    decreases e,
{
    match e {
        BoolExpr::Cmp(k) => truth[k as int],
        BoolExpr::And(a, b) => eval(*a, truth) && eval(*b, truth),
        BoolExpr::Or(a, b) => eval(*a, truth) || eval(*b, truth),
        BoolExpr::Not(x) => !eval(*x, truth),
    }
}

/// The action of the first rule from `k` on whose condition holds.
pub open spec fn first_fire(rules: Seq<(BoolExpr, Action)>, truth: Seq<bool>, k: int) -> Option<Action>
    decreases rules.len() - k,
{
    if k < 0 || k >= rules.len() {
        None
    } else if eval(rules[k].0, truth) {
        Some(rules[k].1)
    } else {
        first_fire(rules, truth, k + 1)
    }
}

/// The node list of slot `slot` after adding the targets `ts` in order.
pub open spec fn graph_after(v: Seq<IndicatorSpec>, ts: Seq<Target>, slot: int) -> Seq<IndicatorSpec>
    decreases ts.len(),
{
    if ts.len() == 0 {
        v
    } else {
        let p = graph_after(v, ts.drop_last(), slot);
        if ts.last().slot == slot {
            added(p, ts.last().spec)
        } else {
            p
        }
    }
}

impl<I: Copy> CompiledStrategyT<I> {
    pub closed spec fn spec_id(&self) -> StrategyId {
        self.id
    }

    pub closed spec fn spec_name(&self) -> Seq<char> {
        self.name@
    }

    pub closed spec fn spec_scope(&self) -> StrategyScope {
        self.scope
    }

    pub closed spec fn rules_view(&self) -> Seq<(BoolExpr, Action)> {
        self.rules@.map_values(|r: Rule| (r.cond, r.action))
    }

    /// Each comparison as (operand, operator, threshold text).
    pub closed spec fn comparisons_view(&self) -> Seq<(I, CmpOp, Seq<char>)> {
        self.comparisons@.map_values(|c: Comparison<I>| (c.operand, c.op, c.threshold@))
    }

    pub open spec fn wf(&self) -> bool {
        forall|k: int|
            0 <= k < self.rules_view().len() ==> refs_below(
                #[trigger] self.rules_view()[k].0,
                self.comparisons_view().len() as int,
            )
    }

    /// Number of comparisons; `evaluate` takes one truth value for each.
    pub fn comparison_count(&self) -> (r: usize)
        ensures
            r == self.comparisons_view().len(),
    {
        self.comparisons.len()
    }

    /// Comparison `k` as (operand, operator, threshold text).
    pub fn comparison(&self, k: usize) -> (r: Option<&Comparison<I>>)
        ensures
            k < self.comparisons_view().len() ==> (r matches Some(c) && (c.operand, c.op, c.threshold@)
                == self.comparisons_view()[k as int]),
            k >= self.comparisons_view().len() ==> r is None,
    {
        if k < self.comparisons.len() {
            Some(&self.comparisons[k])
        } else {
            None
        }
    }

    pub fn rule_count(&self) -> (r: usize)
        ensures
            r == self.rules_view().len(),
    {
        self.rules.len()
    }

    /// Tries the rules top-down and signals the action of the first whose condition holds,
    /// where comparison `k` holds exactly when `truth[k]`.
    pub fn evaluate(&self, truth: &Vec<bool>, timestamp: i64) -> (r: Option<Signal>)
        requires
            self.wf(),
            truth@.len() == self.comparisons_view().len(),
        ensures
            r == (match first_fire(self.rules_view(), truth@, 0) {
                Some(a) => Some(Signal { strategy_id: self.spec_id().0, action: a, timestamp }),
                None => None::<Signal>,
            }),
    {
        let mut k: usize = 0;
        while k < self.rules.len()
            invariant
                self.wf(),
                truth@.len() == self.comparisons_view().len(),
                k <= self.rules@.len(),
                first_fire(self.rules_view(), truth@, 0) == first_fire(self.rules_view(), truth@, k as int),
            decreases self.rules@.len() - k,
        {
            assert(self.rules_view()[k as int] == (self.rules@[k as int].cond, self.rules@[k as int].action));
            if eval_expr(&self.rules[k].cond, truth) {
                return Some(Signal { strategy_id: self.id.0, action: self.rules[k].action, timestamp });
            }
            k = k + 1;
        }
        None
    }
}

fn eval_expr(e: &BoolExpr, truth: &Vec<bool>) -> (r: bool)
    requires
        refs_below(*e, truth@.len() as int),
    ensures
        r == eval(*e, truth@),
    decreases e,
{
    match e {
        BoolExpr::Cmp(k) => truth[*k],
        BoolExpr::And(a, b) => eval_expr(a, truth) && eval_expr(b, truth),
        BoolExpr::Or(a, b) => eval_expr(a, truth) || eval_expr(b, truth),
        BoolExpr::Not(x) => !eval_expr(x, truth),
    }
}

fn number_cond(c: Cond, base: usize) -> (r: BoolExpr)
    requires
        base + leaves(c).len() <= usize::MAX,
    ensures
        r == numbered(c, base as int),
        refs_below(r, base as int + leaves(c).len() as int),
    decreases c,
{
    let ghost c0 = c;
    match c {
        Cond::Cmp { left, op, right } => {
            assert(leaves(c0) =~= seq![Leaf { call: left, op, right }]);
            BoolExpr::Cmp(base)
        },
        Cond::And(a, b) => {
            let ghost lb = leaves(*b).len();
            let n = leaves_len(&a);
            let ea = number_cond(*a, base);
            let eb = number_cond(*b, base + n);
            proof {
                lemma_refs_grow(ea, base + n, base + n + lb);
            }
            BoolExpr::And(Box::new(ea), Box::new(eb))
        },
        Cond::Or(a, b) => {
            let ghost lb = leaves(*b).len();
            let n = leaves_len(&a);
            let ea = number_cond(*a, base);
            let eb = number_cond(*b, base + n);
            proof {
                lemma_refs_grow(ea, base + n, base + n + lb);
            }
            BoolExpr::Or(Box::new(ea), Box::new(eb))
        },
        Cond::Not(x) => BoolExpr::Not(Box::new(number_cond(*x, base))),
    }
}

fn leaves_len(c: &Cond) -> (r: usize)
    requires
        leaves(*c).len() <= usize::MAX,
    ensures
        r == leaves(*c).len(),
    decreases c,
{
    match c {
        Cond::Cmp { .. } => 1,
        Cond::And(a, b) | Cond::Or(a, b) => leaves_len(a) + leaves_len(b),
        Cond::Not(x) => leaves_len(x),
    }
}

proof fn lemma_refs_grow(e: BoolExpr, n: int, m: int)
    requires
        refs_below(e, n),
        n <= m,
    ensures
        refs_below(e, m),
    decreases e,
{
    match e {
        BoolExpr::Cmp(_) => {},
        BoolExpr::And(a, b) => {
            lemma_refs_grow(*a, n, m);
            lemma_refs_grow(*b, n, m);
        },
        BoolExpr::Or(a, b) => {
            lemma_refs_grow(*a, n, m);
            lemma_refs_grow(*b, n, m);
        },
        BoolExpr::Not(x) => lemma_refs_grow(*x, n, m),
    }
}


// ===== Compilation =====

proof fn lemma_graph_after(v: Seq<IndicatorSpec>, ts: Seq<Target>, slot: int)
    requires
        crate::graph::unique(v),
    ensures
        crate::graph::unique(graph_after(v, ts, slot)),
        v.is_prefix_of(graph_after(v, ts, slot)),
        graph_after(v, ts, slot).len() <= v.len() + 3 * ts.len(),
    decreases ts.len(),
{
    if ts.len() > 0 {
        lemma_graph_after(v, ts.drop_last(), slot);
        let p = graph_after(v, ts.drop_last(), slot);
        if ts.last().slot == slot {
            lemma_added_grows(p, ts.last().spec);
        }
    }
}

/// Adds each target's spec to the graph of its slot, in order; returns the node ids.
fn add_targets(ts: &Vec<Target>, graphs: &mut Vec<IndicatorGraph>) -> (ids: Vec<IndicatorId>)
    requires
        forall|k: int|
            0 <= k < old(graphs)@.len() ==> (#[trigger] old(graphs)@[k]).wf() && old(graphs)@[k]@.len()
                + 3 * ts@.len() + 3 <= u32::MAX,
        forall|j: int| 0 <= j < ts@.len() ==> (#[trigger] ts@[j]).slot < old(graphs)@.len(),
    ensures
        final(graphs)@.len() == old(graphs)@.len(),
        forall|k: int|
            0 <= k < final(graphs)@.len() ==> (#[trigger] final(graphs)@[k]).wf() && final(graphs)@[k]@
                == graph_after(old(graphs)@[k]@, ts@, k) && final(graphs)@[k].cap() == old(
                graphs,
            )@[k].cap(),
        ids@.len() == ts@.len(),
        forall|j: int|
            0 <= j < ts@.len() ==> (#[trigger] ids@[j]).0 == id_in(
                final(graphs)@[ts@[j].slot as int]@,
                ts@[j].spec,
            ),
{
    let ghost g0 = graphs@;
    let mut ids: Vec<IndicatorId> = Vec::new();
    let mut j: usize = 0;
    while j < ts.len()
        invariant
            j <= ts@.len(),
            graphs@.len() == g0.len(),
            ids@.len() == j,
            forall|j2: int| 0 <= j2 < ts@.len() ==> (#[trigger] ts@[j2]).slot < g0.len(),
            forall|k: int|
                0 <= k < graphs@.len() ==> (#[trigger] graphs@[k]).wf() && graphs@[k]@ == graph_after(
                    g0[k]@,
                    ts@.take(j as int),
                    k,
                ) && graphs@[k].cap() == g0[k].cap() && g0[k]@.len() + 3 * ts@.len() + 3 <= u32::MAX
                    && g0[k].wf(),
            forall|m: int|
                0 <= m < j ==> graphs@[(#[trigger] ts@[m]).slot as int]@.contains(ts@[m].spec),
            forall|m: int|
                0 <= m < j ==> (#[trigger] ids@[m]).0 == id_in(
                    graphs@[ts@[m].slot as int]@,
                    ts@[m].spec,
                ),
        decreases ts@.len() - j,
    {
        let t = ts[j];
        let slot = t.slot;
        let ghost before = graphs@;
        proof {
            let gk = g0[slot as int]@;
            assert(graphs@[slot as int].wf());
            g0[slot as int].lemma_wf_view();
            lemma_graph_after(gk, ts@.take(j as int), slot as int);
            assert(graphs@[slot as int]@.len() <= gk.len() + 3 * j);
        }
        let mut g = graphs.remove(slot);
        let ghost gv = g@;
        let id = g.add(t.spec);
        proof {
            g.lemma_wf_view();
            assert(crate::graph::unique(gv)) by {
                assert(before[slot as int].wf());
            }
            lemma_added_grows(gv, t.spec);
        }
        let ghost gfin = g;
        graphs.insert(slot, g);
        assert(graphs@[slot as int] == gfin);
        assert(gfin@[id.0 - 1] == t.spec);
        assert(gfin@.contains(t.spec));
        let ghost ids0 = ids@;
        ids.push(id);
        proof {
            assert(ts@.take(j + 1).drop_last() =~= ts@.take(j as int));
            assert(ts@.take(j + 1).last() == t);
            assert forall|k: int| 0 <= k < graphs@.len() implies (#[trigger] graphs@[k]).wf() && graphs@[k]@
                == graph_after(g0[k]@, ts@.take(j + 1), k) && graphs@[k].cap() == g0[k].cap() && g0[k]@.len() + 3
                * ts@.len() + 3 <= u32::MAX && g0[k].wf() by {
                if k != slot {
                    assert(graphs@[k] == before[k]);
                }
            }
        }
        proof {
            assert(ids@[j as int] == id);
            assert(ts@[j as int] == t);
            assert forall|m: int| 0 <= m < j + 1 implies graphs@[(#[trigger] ts@[m]).slot as int]@.contains(
                ts@[m].spec,
            ) && ids@[m].0 == id_in(graphs@[ts@[m].slot as int]@, ts@[m].spec) by {
                if m < j {
                    assert(ids0[m] == ids@[m]);
                    let sm = ts@[m].slot as int;
                    assert(before[sm]@.contains(ts@[m].spec));
                    assert(ids0[m].0 == id_in(before[sm]@, ts@[m].spec));
                    if sm == slot {
                        before[sm].lemma_wf_view();
                        assert(gv == before[sm]@);
                        lemma_id_stable(gv, gfin@, ts@[m].spec);
                        assert(graphs@[sm] == gfin);
                    } else {
                        assert(graphs@[sm] == before[sm]);
                    }
                }
            }
        }
        j = j + 1;
    }
    assert(ts@.take(ts@.len() as int) =~= ts@);
    ids
}


/// A leaf's threshold span lies within `s`.
pub open spec fn leaf_span_ok(l: Leaf, s: Seq<char>) -> bool {
    l.right.start <= l.right.end <= s.len()
}

proof fn lemma_cond_leaves(c: Cond, s: Seq<char>)
    requires
        cond_spans_ok(c, s),
    ensures
        forall|k: int| 0 <= k < leaves(c).len() ==> leaf_span_ok(#[trigger] leaves(c)[k], s),
    decreases c,
{
    let ls = leaves(c);
    match c {
        Cond::Cmp { left, op, right } => {
            assert(ls =~= seq![Leaf { call: left, op, right }]);
        },
        Cond::And(a, b) => {
            lemma_cond_leaves(*a, s);
            lemma_cond_leaves(*b, s);
            lemma_concat_spans(leaves(*a), leaves(*b), s);
            assert(ls == leaves(*a) + leaves(*b));
        },
        Cond::Or(a, b) => {
            lemma_cond_leaves(*a, s);
            lemma_cond_leaves(*b, s);
            lemma_concat_spans(leaves(*a), leaves(*b), s);
            assert(ls == leaves(*a) + leaves(*b));
        },
        Cond::Not(x) => {
            lemma_cond_leaves(*x, s);
            assert(ls == leaves(*x));
        },
    }
    assert forall|k: int| 0 <= k < ls.len() implies leaf_span_ok(#[trigger] ls[k], s) by {
        match c {
            Cond::Cmp { .. } => {},
            Cond::And(a, b) => {
                assert(ls[k] == (leaves(*a) + leaves(*b))[k]);
            },
            Cond::Or(a, b) => {
                assert(ls[k] == (leaves(*a) + leaves(*b))[k]);
            },
            Cond::Not(x) => {
                assert(ls[k] == leaves(*x)[k]);
            },
        }
    }
}

proof fn lemma_concat_spans(x: Seq<Leaf>, y: Seq<Leaf>, s: Seq<char>)
    requires
        forall|k: int| 0 <= k < x.len() ==> leaf_span_ok(#[trigger] x[k], s),
        forall|k: int| 0 <= k < y.len() ==> leaf_span_ok(#[trigger] y[k], s),
    ensures
        forall|k: int| 0 <= k < (x + y).len() ==> leaf_span_ok(#[trigger] (x + y)[k], s),
{
    assert forall|k: int| 0 <= k < (x + y).len() implies leaf_span_ok(#[trigger] (x + y)[k], s) by {
        if k < x.len() {
            assert((x + y)[k] == x[k]);
        } else {
            assert((x + y)[k] == y[k - x.len()]);
        }
    }
}

proof fn lemma_all_leaves_ok(rs: Seq<(Cond, Action)>, s: Seq<char>, periods: Seq<i64>)
    requires
        forall|m: int| 0 <= m < rs.len() ==> rule_ok(#[trigger] rs[m], s, periods),
    ensures
        forall|k: int|
            0 <= k < all_leaves(rs).len() ==> leaf_span_ok(#[trigger] all_leaves(rs)[k], s) && resolve(
                periods,
                all_leaves(rs)[k].call,
            ) is Ok,
    decreases rs.len(),
{
    if rs.len() > 0 {
        let init = rs.drop_last();
        assert forall|m: int| 0 <= m < init.len() implies rule_ok(#[trigger] init[m], s, periods) by {
            assert(init[m] == rs[m]);
        }
        lemma_all_leaves_ok(init, s, periods);
        let last = rs.last();
        assert(rule_ok(rs[rs.len() - 1], s, periods));
        lemma_cond_leaves(last.0, s);
        lemma_first_error_none(periods, leaves(last.0));
        let a = all_leaves(init);
        assert forall|k: int| 0 <= k < all_leaves(rs).len() implies leaf_span_ok(
            #[trigger] all_leaves(rs)[k],
            s,
        ) && resolve(periods, all_leaves(rs)[k].call) is Ok by {
            if k >= a.len() {
                assert(all_leaves(rs)[k] == leaves(last.0)[k - a.len()]);
            } else {
                assert(all_leaves(rs)[k] == a[k]);
            }
        }
    }
}

proof fn lemma_slot_from(periods: Seq<i64>, ms: i64, k: int)
    requires
        0 <= k <= periods.len(),
    ensures
        k <= slot_from(periods, ms, k) <= periods.len(),
    decreases periods.len() - k,
{
    if k < periods.len() && periods[k] != ms {
        lemma_slot_from(periods, ms, k + 1);
    }
}

/// Resolved targets land in an existing slot.
proof fn lemma_resolve_slot(periods: Seq<i64>, call: IndicatorCall)
    requires
        resolve(periods, call) is Ok,
    ensures
        match resolve(periods, call) {
            Ok(t) => if periods.len() == 0 {
                t.slot == 0
            } else {
                t.slot < periods.len()
            },
            Err(_) => true,
        },
{
    if periods.len() > 0 {
        if let Ok(m) = (match suffix_of(call) {
            Some(r) => r,
            None => Ok(periods[0]),
        }) {
            lemma_slot_from(periods, m, 0);
        }
    }
}

/// Every graph can take `n` more comparisons' nodes.
pub open spec fn graphs_fit(gs: Seq<IndicatorGraph>, n: int) -> bool {
    forall|k: int| 0 <= k < gs.len() ==> (#[trigger] gs[k])@.len() + 3 * n + 3 <= u32::MAX
}

/// The comparisons of compiled rules: the resolved (slot, node id) of each, its operator,
/// and its threshold text.
pub open spec fn lowered(
    s: Seq<char>,
    ls: Seq<Leaf>,
    ts: Seq<Target>,
    gs: Seq<IndicatorGraph>,
) -> Seq<((usize, IndicatorId), CmpOp, Seq<char>)> {
    Seq::new(
        ls.len(),
        |k: int|
            (
                (ts[k].slot, IndicatorId(id_in(gs[ts[k].slot as int]@, ts[k].spec) as u32)),
                ls[k].op,
                text_of(s, ls[k].right),
            ),
    )
}

fn compile_core(
    id: StrategyId,
    name: String,
    scope: StrategyScope,
    dsl: &str,
    periods: &Vec<i64>,
    graphs: &mut Vec<IndicatorGraph>,
) -> (r: Result<CompiledStrategyT<(usize, IndicatorId)>, StrategyError>)
    requires
        dsl@.len() < usize::MAX,
        forall|k: int| 0 <= k < old(graphs)@.len() ==> (#[trigger] old(graphs)@[k]).wf(),
        old(graphs)@.len() == (if periods@.len() == 0 {
            1
        } else {
            periods@.len()
        }),
    ensures
        final(graphs)@.len() == old(graphs)@.len(),
        forall|k: int|
            0 <= k < final(graphs)@.len() ==> (#[trigger] final(graphs)@[k]).wf() && final(graphs)@[k].cap()
                == old(graphs)@[k].cap(),
        match rules_spec(dsl@, periods@) {
            Err(e) => r == Err::<CompiledStrategyT<(usize, IndicatorId)>, StrategyError>(e)
                && final(graphs)@ == old(graphs)@,
            Ok(rs) => {
                let ls = all_leaves(rs);
                let ts = targets(periods@, ls);
                if !graphs_fit(old(graphs)@, ls.len() as int) {
                    r == Err::<CompiledStrategyT<(usize, IndicatorId)>, StrategyError>(
                        StrategyError::TooManyIndicators,
                    ) && final(graphs)@ == old(graphs)@
                } else {
                    &&& r matches Ok(cs) && cs.wf() && cs.spec_id() == id && cs.spec_name() == name@
                        && cs.spec_scope() == scope && cs.rules_view() == numbered_rules(rs)
                        && cs.comparisons_view() == lowered(dsl@, ls, ts, final(graphs)@)
                    &&& forall|k: int|
                        0 <= k < final(graphs)@.len() ==> (#[trigger] final(graphs)@[k])@ == graph_after(
                            old(graphs)@[k]@,
                            ts,
                            k,
                        )
                    &&& forall|k: int| 0 <= k < ts.len() ==> (#[trigger] ts[k]).slot < old(graphs)@.len()
                }
            },
        },
{
    let cs = chars_of(dsl);
    let mut rs = rules_at(&cs, periods)?;
    let ghost rs0 = rs@;
    proof {
        lemma_lines_ok(cs@, periods@, 0, 1);
    }
    if rs.len() == 0 {
        return Err(StrategyError::Empty);
    }
    assert(rules_spec(dsl@, periods@) == Ok::<Seq<(Cond, Action)>, StrategyError>(rs0));
    // Number the comparisons rule by rule.
    let mut ls: Vec<Leaf> = Vec::new();
    let mut rules: Vec<Rule> = Vec::new();
    let ghost n = rs0.len();
    let mut k: usize = 0;
    while rs.len() > 0
        invariant
            graphs@ == old(graphs)@,
            n == rs0.len(),
            n <= usize::MAX,
            k + rs@.len() == n,
            rs@ == rs0.skip(k as int),
            ls@ == all_leaves(rs0.take(k as int)),
            rules@.len() == k,
            forall|m: int|
                0 <= m < k ==> (#[trigger] rules@[m]).cond == numbered(
                    rs0[m].0,
                    all_leaves(rs0.take(m)).len() as int,
                ) && rules@[m].action == rs0[m].1 && refs_below(rules@[m].cond, ls@.len() as int),
        decreases rs@.len(),
    {
        let ghost before_rs = rs@;
        assert(before_rs[0] == rs0[k as int]);
        let (c, act) = rs.remove(0);
        proof {
            assert(k < rs0.len());
            assert(rs0[k as int] == (c, act));
            assert(rs0.take(k + 1).drop_last() =~= rs0.take(k as int));
            assert(rs0.take(k + 1).last() == rs0[k as int]);
            assert(rs@ =~= rs0.skip(k + 1));
        }
        let base = ls.len();
        collect_leaves(&c, &mut ls);
        let total = ls.len();
        let e = number_cond(c, base);
        let ghost old_rules = rules@;
        rules.push(Rule { cond: e, action: act });
        proof {
            assert forall|m: int| 0 <= m < k + 1 implies (#[trigger] rules@[m]).cond == numbered(
                rs0[m].0,
                all_leaves(rs0.take(m)).len() as int,
            ) && rules@[m].action == rs0[m].1 && refs_below(rules@[m].cond, ls@.len() as int) by {
                if m < k {
                    assert(rules@[m] == old_rules[m]);
                    lemma_refs_grow(rules@[m].cond, base as int, total as int);
                }
            }
        }
        k = k + 1;
    }
    proof {
        assert(rs0.take(n as int) =~= rs0);
        assert forall|m: int| 0 <= m < rs0.len() implies rule_ok(#[trigger] rs0[m], cs@, periods@) by {}
        lemma_all_leaves_ok(rs0, cs@, periods@);
    }
    // Resolve every comparison's call.
    let ghost lsv = ls@;
    let mut ts: Vec<Target> = Vec::new();
    let mut j: usize = 0;
    while j < ls.len()
        invariant
            graphs@ == old(graphs)@,
            lsv == ls@,
            lsv == all_leaves(rs0),
            j <= ls@.len(),
            ts@ == targets(periods@, lsv).take(j as int),
            forall|q: int|
                0 <= q < all_leaves(rs0).len() ==> leaf_span_ok(#[trigger] all_leaves(rs0)[q], cs@)
                    && resolve(periods@, all_leaves(rs0)[q].call) is Ok,
            forall|q: int| 0 <= q < j ==> (#[trigger] ts@[q]).slot < graphs@.len(),
            graphs@.len() == (if periods@.len() == 0 {
                1
            } else {
                periods@.len()
            }),
        decreases ls@.len() - j,
    {
        let res = resolve_call(periods, ls[j].call);
        let t = match res {
            Ok(t) => t,
            Err(_) => {
                proof {
                    assert(resolve(periods@, lsv[j as int].call) is Ok);
                }
                return Err(StrategyError::Empty);
            },
        };
        proof {
            lemma_resolve_slot(periods@, lsv[j as int].call);
        }
        ts.push(t);
        proof {
            assert(ts@ =~= targets(periods@, lsv).take(j + 1));
        }
        j = j + 1;
    }
    assert(targets(periods@, lsv).take(ls@.len() as int) =~= targets(periods@, lsv));
    // Make room in every graph, then add the resolved specs.
    let mut g: usize = 0;
    while g < graphs.len()
        invariant
            graphs@ == old(graphs)@,
            forall|x: int| 0 <= x < old(graphs)@.len() ==> (#[trigger] old(graphs)@[x]).wf(),
            lsv == ls@,
            lsv == all_leaves(rs0),
            rules_spec(dsl@, periods@) == Ok::<Seq<(Cond, Action)>, StrategyError>(rs0),
            g <= graphs@.len(),
            forall|q: int| 0 <= q < g ==> (#[trigger] graphs@[q])@.len() + 3 * ls@.len() + 3 <= u32::MAX,
        decreases graphs@.len() - g,
    {
        if graphs[g].len() as u128 + 3 * (ls.len() as u128) + 3 > u32::MAX as u128 {
            proof {
                assert(old(graphs)@[g as int]@.len() + 3 * ls@.len() + 3 > u32::MAX);
            }
            return Err(StrategyError::TooManyIndicators);
        }
        g = g + 1;
    }
    let ids = add_targets(&ts, graphs);
    // Bind each comparison to its node and threshold text.
    let mut comparisons: Vec<Comparison<(usize, IndicatorId)>> = Vec::new();
    let mut q: usize = 0;
    while q < ls.len()
        invariant
            lsv == ls@,
            lsv == all_leaves(rs0),
            q <= ls@.len(),
            ids@.len() == ls@.len(),
            ts@ == targets(periods@, lsv),
            cs@ == dsl@,
            comparisons@.len() == q,
            forall|x: int| 0 <= x < ts@.len() ==> (#[trigger] ts@[x]).slot < graphs@.len(),
            forall|x: int|
                0 <= x < all_leaves(rs0).len() ==> leaf_span_ok(#[trigger] all_leaves(rs0)[x], cs@),
            forall|x: int|
                0 <= x < ts@.len() ==> (#[trigger] ids@[x]).0 == id_in(
                    graphs@[ts@[x].slot as int]@,
                    ts@[x].spec,
                ),
            comparisons@.map_values(|c: Comparison<(usize, IndicatorId)>| (c.operand, c.op, c.threshold@))
                == lowered(dsl@, lsv, ts@, graphs@).take(q as int),
        decreases ls@.len() - q,
    {
        let l = ls[q];
        assert(leaf_span_ok(all_leaves(rs0)[q as int], cs@));
        let text = dsl.substring_char(l.right.start, l.right.end).to_owned();
        let ghost old_comps = comparisons@;
        comparisons.push(Comparison { operand: (ts[q].slot, ids[q]), op: l.op, threshold: text });
        proof {
            assert(ids@[q as int].0 == id_in(graphs@[ts@[q as int].slot as int]@, ts@[q as int].spec));
            assert(text@ == text_of(dsl@, lsv[q as int].right));
            assert(IndicatorId(id_in(graphs@[ts@[q as int].slot as int]@, ts@[q as int].spec) as u32) == ids@[q as int]);
            let f = |c: Comparison<(usize, IndicatorId)>| (c.operand, c.op, c.threshold@);
            let low = lowered(dsl@, lsv, ts@, graphs@);
            assert(f(comparisons@[q as int]) == low[q as int]);
            assert(comparisons@.map_values(f) =~= old_comps.map_values(f).push(f(comparisons@[q as int])));
            assert(low.take(q + 1) =~= low.take(q as int).push(low[q as int]));
        }
        q = q + 1;
    }
    assert(lowered(dsl@, lsv, ts@, graphs@).take(ls@.len() as int) =~= lowered(dsl@, lsv, ts@, graphs@));
    let out = CompiledStrategyT { id, name, scope, rules, comparisons };
    proof {
        assert(out.rules_view() =~= numbered_rules(rs0));
    }
    Ok(out)
}


/// The comparisons with each (slot, id) operand replaced by `f` of it.
pub open spec fn rebound<J>(
    v: Seq<((usize, IndicatorId), CmpOp, Seq<char>)>,
    f: spec_fn((usize, IndicatorId)) -> J,
) -> Seq<(J, CmpOp, Seq<char>)> {
    v.map_values(|x: ((usize, IndicatorId), CmpOp, Seq<char>)| (f(x.0), x.1, x.2))
}

fn rebind_single(cs: CompiledStrategyT<(usize, IndicatorId)>) -> (r: CompiledStrategy)
    ensures
        r.spec_id() == cs.spec_id(),
        r.spec_name() == cs.spec_name(),
        r.spec_scope() == cs.spec_scope(),
        r.rules_view() == cs.rules_view(),
        r.comparisons_view() == rebound(cs.comparisons_view(), |o: (usize, IndicatorId)| o.1),
        cs.wf() ==> r.wf(),
{
    let ghost src = cs.comparisons_view();
    let mut out: Vec<Comparison<IndicatorId>> = Vec::new();
    let mut k: usize = 0;
    while k < cs.comparisons.len()
        invariant
            k <= cs.comparisons@.len(),
            out@.len() == k,
            src == cs.comparisons_view(),
            out@.map_values(|c: Comparison<IndicatorId>| (c.operand, c.op, c.threshold@)) == rebound(
                src,
                |o: (usize, IndicatorId)| o.1,
            ).take(k as int),
        decreases cs.comparisons@.len() - k,
    {
        let c = &cs.comparisons[k];
        assert(src[k as int] == (c.operand, c.op, c.threshold@));
        let ghost before = out@;
        out.push(Comparison { operand: c.operand.1, op: c.op, threshold: c.threshold.clone() });
        proof {
            let f = |c: Comparison<IndicatorId>| (c.operand, c.op, c.threshold@);
            let want = rebound(src, |o: (usize, IndicatorId)| o.1);
            assert(f(out@[k as int]) == want[k as int]);
            assert(out@.map_values(f) =~= before.map_values(f).push(f(out@[k as int])));
            assert(want.take(k + 1) =~= want.take(k as int).push(want[k as int]));
        }
        k = k + 1;
    }
    let ghost want = rebound(src, |o: (usize, IndicatorId)| o.1);
    assert(want.take(cs.comparisons@.len() as int) =~= want);
    let r = CompiledStrategyT { id: cs.id, name: cs.name, scope: cs.scope, rules: cs.rules, comparisons: out };
    r
}

fn rebind_multi(cs: CompiledStrategyT<(usize, IndicatorId)>, periods: &Vec<i64>) -> (r: CompiledStrategyT<
    MultiIndicatorRef,
>)
    requires
        forall|k: int|
            0 <= k < cs.comparisons_view().len() ==> (#[trigger] cs.comparisons_view()[k]).0.0
                < periods@.len(),
    ensures
        r.spec_id() == cs.spec_id(),
        r.spec_name() == cs.spec_name(),
        r.spec_scope() == cs.spec_scope(),
        r.rules_view() == cs.rules_view(),
        r.comparisons_view() == rebound(
            cs.comparisons_view(),
            |o: (usize, IndicatorId)| MultiIndicatorRef { period_ms: periods@[o.0 as int], id: o.1 },
        ),
        cs.wf() ==> r.wf(),
{
    let ghost src = cs.comparisons_view();
    let ghost g = |o: (usize, IndicatorId)| MultiIndicatorRef { period_ms: periods@[o.0 as int], id: o.1 };
    let mut out: Vec<Comparison<MultiIndicatorRef>> = Vec::new();
    let mut k: usize = 0;
    while k < cs.comparisons.len()
        invariant
            k <= cs.comparisons@.len(),
            out@.len() == k,
            src == cs.comparisons_view(),
            g == (|o: (usize, IndicatorId)| MultiIndicatorRef { period_ms: periods@[o.0 as int], id: o.1 }),
            forall|x: int| 0 <= x < src.len() ==> (#[trigger] src[x]).0.0 < periods@.len(),
            out@.map_values(|c: Comparison<MultiIndicatorRef>| (c.operand, c.op, c.threshold@)) == rebound(
                src,
                g,
            ).take(k as int),
        decreases cs.comparisons@.len() - k,
    {
        let c = &cs.comparisons[k];
        assert(src[k as int] == (c.operand, c.op, c.threshold@));
        let operand = MultiIndicatorRef { period_ms: periods[c.operand.0], id: c.operand.1 };
        let ghost before = out@;
        out.push(Comparison { operand, op: c.op, threshold: c.threshold.clone() });
        proof {
            let f = |c: Comparison<MultiIndicatorRef>| (c.operand, c.op, c.threshold@);
            let want = rebound(src, g);
            assert(f(out@[k as int]) == want[k as int]);
            assert(out@.map_values(f) =~= before.map_values(f).push(f(out@[k as int])));
            assert(want.take(k + 1) =~= want.take(k as int).push(want[k as int]));
        }
        k = k + 1;
    }
    let ghost want = rebound(src, g);
    assert(want.take(cs.comparisons@.len() as int) =~= want);
    let ghost rules0 = cs.rules_view();
    let ghost wf0 = cs.wf();
    let r = CompiledStrategyT { id: cs.id, name: cs.name, scope: cs.scope, rules: cs.rules, comparisons: out };
    assert(r.comparisons_view().len() == src.len());
    assert(r.rules_view() == rules0);
    assert(wf0 ==> r.wf());
    r
}

/// The comparisons of a single-timeframe strategy: node id in the graph, operator, threshold.
pub open spec fn single_comparisons(
    s: Seq<char>,
    ls: Seq<Leaf>,
    ts: Seq<Target>,
    g: Seq<IndicatorSpec>,
) -> Seq<(IndicatorId, CmpOp, Seq<char>)> {
    Seq::new(
        ls.len(),
        |k: int| (IndicatorId(id_in(g, ts[k].spec) as u32), ls[k].op, text_of(s, ls[k].right)),
    )
}

/// Compiles a single-timeframe strategy. Each indicator call resolves to the node of
/// `graph` for its spec, which is added (with its dependencies) when absent. Nothing is
/// compiled, and the graph is left as it was, when any line is rejected.
pub fn compile_strategy(id: StrategyId, name: String, dsl: &str, graph: &mut IndicatorGraph) -> (r: Result<
    CompiledStrategy,
    StrategyError,
>)
    requires
        old(graph).wf(),
        dsl@.len() < usize::MAX,
    ensures
        final(graph).wf(),
        final(graph).cap() == old(graph).cap(),
        match rules_spec(dsl@, Seq::empty()) {
            Err(e) => r == Err::<CompiledStrategy, StrategyError>(e) && final(graph)@ == old(graph)@,
            Ok(rs) => {
                let ls = all_leaves(rs);
                let ts = targets(Seq::empty(), ls);
                if old(graph)@.len() + 3 * ls.len() + 3 > u32::MAX {
                    r == Err::<CompiledStrategy, StrategyError>(StrategyError::TooManyIndicators)
                        && final(graph)@ == old(graph)@
                } else {
                    &&& final(graph)@ == graph_after(old(graph)@, ts, 0)
                    &&& r matches Ok(cs) && cs.wf() && cs.spec_id() == id && cs.spec_name() == name@
                        && cs.spec_scope() == StrategyScope::Single && cs.rules_view() == numbered_rules(rs)
                        && cs.comparisons_view() == single_comparisons(dsl@, ls, ts, final(graph)@)
                }
            },
        },
{
    let empty: Vec<i64> = Vec::new();
    let mut tmp = IndicatorGraph::new(graph.capacity());
    core::mem::swap(graph, &mut tmp);
    let mut gs: Vec<IndicatorGraph> = Vec::new();
    gs.push(tmp);
    let ghost g0 = gs@;
    let res = compile_core(id, name, StrategyScope::Single, dsl, &empty, &mut gs);
    let mut back = gs.pop().unwrap();
    core::mem::swap(graph, &mut back);
    assert(g0[0]@ == old(graph)@);
    match res {
        Err(e) => {
            proof {
                if let Ok(rs) = rules_spec(dsl@, Seq::empty()) {
                    if !graphs_fit(g0, all_leaves(rs).len() as int) {
                        assert(old(graph)@.len() + 3 * all_leaves(rs).len() + 3 > u32::MAX);
                    }
                }
            }
            Err(e)
        },
        Ok(cs) => {
            let r = rebind_single(cs);
            proof {
                let rs = rules_spec(dsl@, Seq::empty())->Ok_0;
                let ls = all_leaves(rs);
                let ts = targets(Seq::empty(), ls);
                assert(graphs_fit(g0, ls.len() as int));
                assert(old(graph)@.len() + 3 * ls.len() + 3 <= u32::MAX);
                assert forall|k: int| 0 <= k < ls.len() implies ts[k].slot == 0 by {}
                assert(r.comparisons_view() =~= single_comparisons(dsl@, ls, ts, graph@));
            }
            Ok(r)
        },
    }
}


/// The comparisons of a cross-timeframe strategy: (timeframe, node id), operator, threshold.
pub open spec fn multi_comparisons(
    s: Seq<char>,
    ls: Seq<Leaf>,
    ts: Seq<Target>,
    periods: Seq<i64>,
    gs: Seq<IndicatorGraph>,
) -> Seq<(MultiIndicatorRef, CmpOp, Seq<char>)> {
    Seq::new(
        ls.len(),
        |k: int|
            (
                MultiIndicatorRef {
                    period_ms: periods[ts[k].slot as int],
                    id: IndicatorId(id_in(gs[ts[k].slot as int]@, ts[k].spec) as u32),
                },
                ls[k].op,
                text_of(s, ls[k].right),
            ),
    )
}

/// Compiles a cross-timeframe strategy over engines of the timeframes `periods`, whose
/// graphs are `graphs` in the same order. A call with a `@period` suffix resolves in the
/// graph of that timeframe, one without in the graph of the first.
pub fn compile_multi_strategy(
    id: StrategyId,
    name: String,
    dsl: &str,
    periods: &Vec<i64>,
    graphs: &mut Vec<IndicatorGraph>,
) -> (r: Result<CompiledStrategyT<MultiIndicatorRef>, StrategyError>)
    requires
        dsl@.len() < usize::MAX,
        old(graphs)@.len() == periods@.len(),
        forall|k: int| 0 <= k < old(graphs)@.len() ==> (#[trigger] old(graphs)@[k]).wf(),
    ensures
        final(graphs)@.len() == old(graphs)@.len(),
        forall|k: int|
            0 <= k < final(graphs)@.len() ==> (#[trigger] final(graphs)@[k]).wf() && final(graphs)@[k].cap()
                == old(graphs)@[k].cap(),
        periods@.len() == 0 ==> r == Err::<CompiledStrategyT<MultiIndicatorRef>, StrategyError>(
            StrategyError::NoPeriods,
        ) && final(graphs)@ == old(graphs)@,
        periods@.len() > 0 ==> match rules_spec(dsl@, periods@) {
            Err(e) => r == Err::<CompiledStrategyT<MultiIndicatorRef>, StrategyError>(e)
                && final(graphs)@ == old(graphs)@,
            Ok(rs) => {
                let ls = all_leaves(rs);
                let ts = targets(periods@, ls);
                if !graphs_fit(old(graphs)@, ls.len() as int) {
                    r == Err::<CompiledStrategyT<MultiIndicatorRef>, StrategyError>(
                        StrategyError::TooManyIndicators,
                    ) && final(graphs)@ == old(graphs)@
                } else {
                    &&& forall|k: int|
                        0 <= k < final(graphs)@.len() ==> (#[trigger] final(graphs)@[k])@ == graph_after(
                            old(graphs)@[k]@,
                            ts,
                            k,
                        )
                    &&& r matches Ok(cs) && cs.wf() && cs.spec_id() == id && cs.spec_name() == name@
                        && cs.spec_scope() == StrategyScope::Multi && cs.rules_view() == numbered_rules(rs)
                        && cs.comparisons_view() == multi_comparisons(dsl@, ls, ts, periods@, final(graphs)@)
                }
            },
        },
{
    if periods.len() == 0 {
        return Err(StrategyError::NoPeriods);
    }
    let cs = compile_core(id, name, StrategyScope::Multi, dsl, periods, graphs)?;
    proof {
        let rs = rules_spec(dsl@, periods@)->Ok_0;
        let ls = all_leaves(rs);
        let ts = targets(periods@, ls);
        let cv = cs.comparisons_view();
        assert forall|k: int| 0 <= k < cv.len() implies (#[trigger] cv[k]).0.0 < periods@.len() by {
            assert(cv[k].0.0 == ts[k].slot);
        }
    }
    let r = rebind_multi(cs, periods);
    Ok(r)
}

} // verus!
