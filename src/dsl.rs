//! Lexer and recursive-descent parser of rule conditions:
//!
//! ```text
//! or_expr  := and_expr (OR and_expr)*
//! and_expr := unary (AND unary)*
//! unary    := NOT* primary
//! primary  := '(' or_expr ')' | call cmp_op number
//! ```
//!
//! Tokens and parse results refer to the source text by character spans.
use crate::text::{digits_value, is_alpha, is_ascii_space, is_digit};
use crate::period::{period_ms_of, Period, PeriodError};
use crate::types::Field;
use vstd::prelude::*;

verus! {

/// The characters `start..end` of the source text.
#[derive(Debug, Clone, Copy, PartialEq, Eq, Structural)]
pub struct Span {
    pub start: usize,
    pub end: usize,
}

#[derive(Debug, Clone, Copy, PartialEq, Eq, Structural)]
pub enum Tok {
    Ident(Span),
    Number(Span),
    LParen,
    RParen,
    Comma,
    Assign,
    EqEq,
    NotEq,
    Lt,
    Gt,
    Le,
    Ge,
    And,
    Or,
    Not,
}

/// Why a condition was rejected.
#[derive(Debug, Clone, Copy, PartialEq, Eq, Structural)]
pub enum ParseError {
    UnexpectedChar,
    InvalidNumber,
    TrailingTokens,
    MissingCloseParen,
    ExpectedIndicatorName,
    ExpectedOpenParen,
    MissingArgsCloseParen,
    MissingComparison,
    ExpectedNumber,
    UnsupportedIndicator,
    UnknownArgument,
    TooManyArguments,
    MissingPeriod,
    ExpectedSingleNumber,
    InvalidInteger,
    FieldNotIdentifier,
    UnknownField,
}

impl ParseError {
    pub fn message(&self) -> (r: &'static str)
        ensures
            r@ == (match *self {
                ParseError::UnexpectedChar => "unexpected char"@,
                ParseError::InvalidNumber => "invalid number"@,
                ParseError::TrailingTokens => "unexpected tokens after condition"@,
                ParseError::MissingCloseParen => "missing ')'"@,
                ParseError::ExpectedIndicatorName => "expected indicator name"@,
                ParseError::ExpectedOpenParen => "expected '(' after indicator name"@,
                ParseError::MissingArgsCloseParen => "missing ')' after indicator args"@,
                ParseError::MissingComparison => "missing comparison operator"@,
                ParseError::ExpectedNumber => "expected number"@,
                ParseError::UnsupportedIndicator => "unsupported indicator"@,
                ParseError::UnknownArgument => "unknown argument"@,
                ParseError::TooManyArguments => "too many arguments"@,
                ParseError::MissingPeriod => "missing period"@,
                ParseError::ExpectedSingleNumber => "expected single number"@,
                ParseError::InvalidInteger => "invalid integer"@,
                ParseError::FieldNotIdentifier => "field expects a single identifier"@,
                ParseError::UnknownField => "unknown field"@,
            }),
    {
        match self {
            ParseError::UnexpectedChar => "unexpected char",
            ParseError::InvalidNumber => "invalid number",
            ParseError::TrailingTokens => "unexpected tokens after condition",
            ParseError::MissingCloseParen => "missing ')'",
            ParseError::ExpectedIndicatorName => "expected indicator name",
            ParseError::ExpectedOpenParen => "expected '(' after indicator name",
            ParseError::MissingArgsCloseParen => "missing ')' after indicator args",
            ParseError::MissingComparison => "missing comparison operator",
            ParseError::ExpectedNumber => "expected number",
            ParseError::UnsupportedIndicator => "unsupported indicator",
            ParseError::UnknownArgument => "unknown argument",
            ParseError::TooManyArguments => "too many arguments",
            ParseError::MissingPeriod => "missing period",
            ParseError::ExpectedSingleNumber => "expected single number",
            ParseError::InvalidInteger => "invalid integer",
            ParseError::FieldNotIdentifier => "field expects a single identifier",
            ParseError::UnknownField => "unknown field",
        }
    }
}

// ===== Lexer =====

pub open spec fn ident_start(c: char) -> bool {
    is_alpha(c) || c == '_'
}

pub open spec fn ident_cont(c: char) -> bool {
    is_alpha(c) || is_digit(c) || c == '_' || c == '@'
}

pub open spec fn num_char(c: char) -> bool {
    is_digit(c) || c == '.'
}

/// Letters equal up to ASCII case; other characters equal.
pub open spec fn same_ci(c: char, d: char) -> bool {
    c == d || (is_alpha(c) && is_alpha(d) && (c as u32 + 32 == d as u32 || d as u32 + 32
        == c as u32))
}

/// `w` and `u` are equal up to ASCII case.
pub open spec fn ci_eq(w: Seq<char>, u: Seq<char>) -> bool {
    w.len() == u.len() && forall|k: int| 0 <= k < w.len() ==> same_ci(#[trigger] w[k], u[k])
}

/// End of the run of number characters starting at `i`, within `..to`.
pub open spec fn num_end(s: Seq<char>, i: int, to: int) -> int
    decreases to - i,
{
    if i < to && num_char(s[i]) {
        num_end(s, i + 1, to)
    } else {
        i
    }
}

/// End of the run of identifier characters starting at `i`, within `..to`.
pub open spec fn ident_end(s: Seq<char>, i: int, to: int) -> int
    decreases to - i,
{
    if i < to && ident_cont(s[i]) {
        ident_end(s, i + 1, to)
    } else {
        i
    }
}

/// A run of digits and dots reads as a number when it has a digit and at most one dot.
pub open spec fn valid_number(t: Seq<char>) -> bool {
    &&& exists|k: int| 0 <= k < t.len() && is_digit(#[trigger] t[k])
    &&& forall|a: int, b: int| 0 <= a < b < t.len() && t[a] == '.' ==> t[b] != '.'
}

pub open spec fn prepend(t: Tok, r: Result<Seq<Tok>, ParseError>) -> Result<Seq<Tok>, ParseError> {
    match r {
        Ok(ts) => Ok(seq![t] + ts),
        Err(e) => Err(e),
    }
}

pub proof fn lemma_num_end(s: Seq<char>, i: int, to: int)
    ensures
        i <= to ==> i <= num_end(s, i, to) <= to,
        i > to ==> num_end(s, i, to) == i,
        forall|k: int| i <= k < num_end(s, i, to) ==> num_char(#[trigger] s[k]),
    decreases to - i,
{
    if i < to && num_char(s[i]) {
        lemma_num_end(s, i + 1, to);
    }
}

pub proof fn lemma_ident_end(s: Seq<char>, i: int, to: int)
    ensures
        i <= to ==> i <= ident_end(s, i, to) <= to,
        i > to ==> ident_end(s, i, to) == i,
    decreases to - i,
{
    if i < to && ident_cont(s[i]) {
        lemma_ident_end(s, i + 1, to);
    }
}

/// The token for a word: a keyword when it is AND, OR or NOT in any case.
pub open spec fn word_tok(s: Seq<char>, i: int, j: int) -> Tok {
    let w = s.subrange(i, j);
    if ci_eq(w, seq!['A', 'N', 'D']) {
        Tok::And
    } else if ci_eq(w, seq!['O', 'R']) {
        Tok::Or
    } else if ci_eq(w, seq!['N', 'O', 'T']) {
        Tok::Not
    } else {
        Tok::Ident(Span { start: i as usize, end: j as usize })
    }
}

/// The tokens of `s[i..to]`, or the first lexical error.
pub open spec fn lex_from(s: Seq<char>, i: int, to: int) -> Result<Seq<Tok>, ParseError>
    decreases to - i,
{
    if i >= to {
        Ok(Seq::empty())
    } else {
        let c = s[i];
        let next_eq = i + 1 < to && s[i + 1] == '=';
        if is_ascii_space(c) {
            lex_from(s, i + 1, to)
        } else if c == '(' {
            prepend(Tok::LParen, lex_from(s, i + 1, to))
        } else if c == ')' {
            prepend(Tok::RParen, lex_from(s, i + 1, to))
        } else if c == ',' {
            prepend(Tok::Comma, lex_from(s, i + 1, to))
        } else if c == '<' {
            if next_eq {
                prepend(Tok::Le, lex_from(s, i + 2, to))
            } else {
                prepend(Tok::Lt, lex_from(s, i + 1, to))
            }
        } else if c == '>' {
            if next_eq {
                prepend(Tok::Ge, lex_from(s, i + 2, to))
            } else {
                prepend(Tok::Gt, lex_from(s, i + 1, to))
            }
        } else if c == '=' {
            if next_eq {
                prepend(Tok::EqEq, lex_from(s, i + 2, to))
            } else {
                prepend(Tok::Assign, lex_from(s, i + 1, to))
            }
        } else if c == '!' {
            if next_eq {
                prepend(Tok::NotEq, lex_from(s, i + 2, to))
            } else {
                Err(ParseError::UnexpectedChar)
            }
        } else if num_char(c) {
            let j = num_end(s, i + 1, to);
            proof {
                lemma_num_end(s, i + 1, to);
            }
            if valid_number(s.subrange(i, j)) {
                prepend(Tok::Number(Span { start: i as usize, end: j as usize }), lex_from(s, j, to))
            } else {
                Err(ParseError::InvalidNumber)
            }
        } else if ident_start(c) {
            let j = ident_end(s, i + 1, to);
            proof {
                lemma_ident_end(s, i + 1, to);
            }
            prepend(word_tok(s, i, j), lex_from(s, j, to))
        } else {
            Err(ParseError::UnexpectedChar)
        }
    }
}

pub fn is_ident_start(c: char) -> (r: bool)
    ensures
        r == ident_start(c),
{
    is_alpha_char(c) || c == '_'
}

pub fn is_ident_cont(c: char) -> (r: bool)
    ensures
        r == ident_cont(c),
{
    is_alpha_char(c) || ('0' <= c && c <= '9') || c == '_' || c == '@'
}

fn is_alpha_char(c: char) -> (r: bool)
    ensures
        r == is_alpha(c),
{
    ('a' <= c && c <= 'z') || ('A' <= c && c <= 'Z')
}

fn same_ci_char(c: char, d: char) -> (r: bool)
    ensures
        r == same_ci(c, d),
{
    c == d || (is_alpha_char(c) && is_alpha_char(d) && ((c as u32) + 32 == d as u32 || (d as u32)
        + 32 == c as u32))
}

/// Whether `s[a..b]` equals `lit` up to ASCII case.
pub fn ci_eq_at(s: &Vec<char>, a: usize, b: usize, lit: &[char]) -> (r: bool)
    requires
        a <= b <= s@.len(),
    ensures
        r == ci_eq(s@.subrange(a as int, b as int), lit@),
{
    if b - a != lit.len() {
        return false;
    }
    let mut k: usize = 0;
    while k < lit.len()
        invariant
            a <= b <= s@.len(),
            b - a == lit@.len(),
            k <= lit@.len(),
            forall|m: int| 0 <= m < k ==> same_ci(#[trigger] s@[a + m], lit@[m]),
        decreases lit@.len() - k,
    {
        if !same_ci_char(s[a + k], lit[k]) {
            proof {
                assert(s@.subrange(a as int, b as int)[k as int] == s@[a + k]);
            }
            return false;
        }
        k = k + 1;
    }
    proof {
        assert forall|m: int| 0 <= m < b - a implies same_ci(
            #[trigger] s@.subrange(a as int, b as int)[m],
            lit@[m],
        ) by {
            assert(s@.subrange(a as int, b as int)[m] == s@[a + m]);
        }
    }
    true
}

proof fn lemma_prepend_all(out: Seq<Tok>, t: Tok, r: Result<Seq<Tok>, ParseError>)
    ensures
        prepend_all(out, prepend(t, r)) == prepend_all(out.push(t), r),
{
    if let Ok(ts) = r {
        assert(out + (seq![t] + ts) =~= out.push(t) + ts);
    }
}

pub open spec fn prepend_all(out: Seq<Tok>, r: Result<Seq<Tok>, ParseError>) -> Result<
    Seq<Tok>,
    ParseError,
> {
    match r {
        Ok(ts) => Ok(out + ts),
        Err(e) => Err(e),
    }
}

fn is_ascii_space_char(c: char) -> (r: bool)
    ensures
        r == is_ascii_space(c),
{
    c == ' ' || c == '\t' || c == '\n' || c == '\u{c}' || c == '\r'
}

/// Tokenizes `s[from..to]`; spans are positions in `s`.
pub fn lex(s: &Vec<char>, from: usize, to: usize) -> (r: Result<Vec<Tok>, ParseError>)
    requires
        from <= to <= s@.len(),
    ensures
        match lex_from(s@, from as int, to as int) {
            Ok(ts) => r matches Ok(v) && v@ == ts,
            Err(e) => r == Err::<Vec<Tok>, ParseError>(e),
        },
{
    let mut out: Vec<Tok> = Vec::new();
    let mut i = from;
    while i < to
        invariant
            from <= i <= to <= s@.len(),
            lex_from(s@, from as int, to as int) == prepend_all(out@, lex_from(s@, i as int, to as int)),
        decreases to - i,
    {
        let c = s[i];
        let next_eq = i + 1 < to && s[i + 1] == '=';
        let ghost rest_before = lex_from(s@, i as int, to as int);
        if is_ascii_space_char(c) {
            i = i + 1;
            continue;
        }
        let (tok, next): (Tok, usize) = if c == '(' {
            (Tok::LParen, i + 1)
        } else if c == ')' {
            (Tok::RParen, i + 1)
        } else if c == ',' {
            (Tok::Comma, i + 1)
        } else if c == '<' {
            if next_eq {
                (Tok::Le, i + 2)
            } else {
                (Tok::Lt, i + 1)
            }
        } else if c == '>' {
            if next_eq {
                (Tok::Ge, i + 2)
            } else {
                (Tok::Gt, i + 1)
            }
        } else if c == '=' {
            if next_eq {
                (Tok::EqEq, i + 2)
            } else {
                (Tok::Assign, i + 1)
            }
        } else if c == '!' {
            if next_eq {
                (Tok::NotEq, i + 2)
            } else {
                return Err(ParseError::UnexpectedChar);
            }
        } else if ('0' <= c && c <= '9') || c == '.' {
            let mut j = i + 1;
            while j < to && (('0' <= s[j] && s[j] <= '9') || s[j] == '.')
                invariant
                    i < j <= to <= s@.len(),
                    num_end(s@, i + 1, to as int) == num_end(s@, j as int, to as int),
                decreases to - j,
            {
                j = j + 1;
            }
            if !number_ok(s, i, j) {
                return Err(ParseError::InvalidNumber);
            }
            (Tok::Number(Span { start: i, end: j }), j)
        } else if is_ident_start(c) {
            let mut j = i + 1;
            while j < to && is_ident_cont(s[j])
                invariant
                    i < j <= to <= s@.len(),
                    ident_end(s@, i + 1, to as int) == ident_end(s@, j as int, to as int),
                decreases to - j,
            {
                j = j + 1;
            }
            let t = if ci_eq_at(s, i, j, &['A', 'N', 'D']) {
                Tok::And
            } else if ci_eq_at(s, i, j, &['O', 'R']) {
                Tok::Or
            } else if ci_eq_at(s, i, j, &['N', 'O', 'T']) {
                Tok::Not
            } else {
                Tok::Ident(Span { start: i, end: j })
            };
            assert(t == word_tok(s@, i as int, j as int));
            (t, j)
        } else {
            return Err(ParseError::UnexpectedChar);
        };
        proof {
            assert(rest_before == prepend(tok, lex_from(s@, next as int, to as int)));
            lemma_prepend_all(out@, tok, lex_from(s@, next as int, to as int));
        }
        out.push(tok);
        i = next;
    }
    assert(out@ + Seq::<Tok>::empty() =~= out@);
    Ok(out)
}

/// Whether `s[a..b]` has a digit and at most one dot.
fn number_ok(s: &Vec<char>, a: usize, b: usize) -> (r: bool)
    requires
        a <= b <= s@.len(),
    ensures
        r == valid_number(s@.subrange(a as int, b as int)),
{
    let ghost t = s@.subrange(a as int, b as int);
    let mut dot: bool = false;
    let mut digit: bool = false;
    let mut k = a;
    while k < b
        invariant
            a <= k <= b <= s@.len(),
            t == s@.subrange(a as int, b as int),
            digit == exists|m: int| 0 <= m < k - a && is_digit(#[trigger] t[m]),
            dot == exists|m: int| 0 <= m < k - a && #[trigger] t[m] == '.',
            forall|x: int, y: int| 0 <= x < y < k - a && t[x] == '.' ==> t[y] != '.',
        decreases b - k,
    {
        let c = s[k];
        assert(t[k - a] == c);
        if c == '.' {
            if dot {
                proof {
                    let m = choose|m: int| 0 <= m < k - a && #[trigger] t[m] == '.';
                    assert(t[m] == '.' && t[k - a] == '.');
                }
                return false;
            }
            dot = true;
        }
        if '0' <= c && c <= '9' {
            digit = true;
        }
        k = k + 1;
    }
    digit
}


/// A token's span lies within `s`, and a number's span holds only digits and dots.
pub open spec fn tok_ok(t: Tok, s: Seq<char>) -> bool {
    match t {
        Tok::Ident(sp) => sp.start <= sp.end <= s.len(),
        Tok::Number(sp) => sp.start <= sp.end <= s.len() && forall|k: int|
            sp.start <= k < sp.end ==> num_char(#[trigger] s[k]),
        _ => true,
    }
}

pub open spec fn spans_in(t: Seq<Tok>, s: Seq<char>) -> bool {
    forall|k: int| 0 <= k < t.len() ==> tok_ok(#[trigger] t[k], s)
}

proof fn lemma_spans_prepend(t: Tok, ts: Seq<Tok>, n: Seq<char>)
    requires
        spans_in(ts, n),
        tok_ok(t, n),
    ensures
        spans_in(seq![t] + ts, n),
{
    assert forall|k: int| 0 <= k < (seq![t] + ts).len() implies tok_ok(
        #[trigger] (seq![t] + ts)[k],
        n,
    ) by {
        if k > 0 {
            assert((seq![t] + ts)[k] == ts[k - 1]);
        }
    }
}

/// Every token span lies within the text.
pub proof fn lemma_lex_spans(s: Seq<char>, i: int, to: int)
    requires
        0 <= i,
        to <= s.len() <= usize::MAX,
    ensures
        lex_from(s, i, to) matches Ok(ts) ==> spans_in(ts, s),
    decreases to - i,
{
    if i < to {
        let c = s[i];
        let next_eq = i + 1 < to && s[i + 1] == '=';
        let n = s;
        if is_ascii_space(c) {
            lemma_lex_spans(s, i + 1, to);
        } else if c == '(' || c == ')' || c == ',' || ((c == '<' || c == '>' || c == '=') && !next_eq) {
            lemma_lex_spans(s, i + 1, to);
            if let Ok(ts) = lex_from(s, i + 1, to) {
                let t = if c == '(' { Tok::LParen } else if c == ')' { Tok::RParen } else if c == ',' { Tok::Comma } else if c == '<' { Tok::Lt } else if c == '>' { Tok::Gt } else { Tok::Assign };
                lemma_spans_prepend(t, ts, n);
            }
        } else if (c == '<' || c == '>' || c == '=' || c == '!') && next_eq {
            lemma_lex_spans(s, i + 2, to);
            if let Ok(ts) = lex_from(s, i + 2, to) {
                let t = if c == '<' { Tok::Le } else if c == '>' { Tok::Ge } else if c == '=' { Tok::EqEq } else { Tok::NotEq };
                lemma_spans_prepend(t, ts, n);
            }
        } else if num_char(c) {
            let j = num_end(s, i + 1, to);
            lemma_num_end(s, i + 1, to);
            lemma_lex_spans(s, j, to);
            assert(forall|k: int| i <= k < j ==> num_char(#[trigger] s[k]));
            if let Ok(ts) = lex_from(s, j, to) {
                lemma_spans_prepend(Tok::Number(Span { start: i as usize, end: j as usize }), ts, n);
            }
        } else if ident_start(c) {
            let j = ident_end(s, i + 1, to);
            lemma_ident_end(s, i + 1, to);
            lemma_lex_spans(s, j, to);
            if let Ok(ts) = lex_from(s, j, to) {
                lemma_spans_prepend(word_tok(s, i, j), ts, n);
            }
        }
    }
}

// ===== Parser =====

#[derive(Debug, Clone, Copy, PartialEq, Eq, Structural)]
pub enum CmpOp {
    Lt,
    Le,
    Gt,
    Ge,
    Eq,
    Ne,
}

/// A bar field, with the timeframe suffix of `close@4h` when one is written: its span
/// and the period it denotes in milliseconds (or why it denotes none).
#[derive(Debug, Clone, Copy, PartialEq, Eq)]
pub struct SeriesRef {
    pub field: Field,
    pub suffix: Option<Span>,
    pub suffix_ms: Option<Result<i64, PeriodError>>,
}

/// An indicator call as written in a condition.
#[derive(Debug, Clone, Copy, PartialEq, Eq)]
pub enum IndicatorCall {
    Rsi { series: Option<SeriesRef>, period: usize },
    Sma { series: SeriesRef, period: usize },
    Ema { series: SeriesRef, period: usize },
    StdDev { series: SeriesRef, period: usize },
}

/// A parsed condition; `right` is the span of the threshold number.
#[derive(Debug)]
pub enum Cond {
    Cmp { left: IndicatorCall, op: CmpOp, right: Span },
    And(Box<Cond>, Box<Cond>),
    Or(Box<Cond>, Box<Cond>),
    Not(Box<Cond>),
}

/// Series and period collected from a call's arguments so far.
#[derive(Debug, Clone, Copy, PartialEq, Eq)]
pub struct ArgState {
    pub series: Option<SeriesRef>,
    pub period: Option<usize>,
}

pub open spec fn text_of(s: Seq<char>, sp: Span) -> Seq<char> {
    s.subrange(sp.start as int, sp.end as int)
}

/// Position of the first `c` in `s[i..end]`, or `end`.
pub open spec fn find_char(s: Seq<char>, c: char, i: int, end: int) -> int
    decreases end - i,
{
    if i < end && s[i] != c {
        find_char(s, c, i + 1, end)
    } else {
        i
    }
}

pub proof fn lemma_find_char(s: Seq<char>, c: char, i: int, end: int)
    requires
        i <= end,
    ensures
        i <= find_char(s, c, i, end) <= end,
        find_char(s, c, i, end) < end ==> s[find_char(s, c, i, end)] == c,
    decreases end - i,
{
    if i < end && s[i] != c {
        lemma_find_char(s, c, i + 1, end);
    }
}

/// The whole part of a number token, saturating at `usize::MAX`.
pub open spec fn whole_part(s: Seq<char>, sp: Span) -> usize {
    let d = digits_value(s.subrange(sp.start as int, find_char(s, '.', sp.start as int, sp.end as int)));
    if d > usize::MAX {
        usize::MAX
    } else {
        d as usize
    }
}

pub open spec fn field_named(f: Seq<char>) -> Option<Field> {
    if ci_eq(f, seq!['o', 'p', 'e', 'n']) {
        Some(Field::Open)
    } else if ci_eq(f, seq!['h', 'i', 'g', 'h']) {
        Some(Field::High)
    } else if ci_eq(f, seq!['l', 'o', 'w']) {
        Some(Field::Low)
    } else if ci_eq(f, seq!['c', 'l', 'o', 's', 'e']) {
        Some(Field::Close)
    } else if ci_eq(f, seq!['v', 'o', 'l', 'u', 'm', 'e']) {
        Some(Field::Volume)
    } else if ci_eq(f, seq!['b', 'u', 'y', '_', 'v', 'o', 'l', 'u', 'm', 'e']) || ci_eq(
        f,
        seq!['b', 'u', 'y', 'v', 'o', 'l', 'u', 'm', 'e'],
    ) {
        Some(Field::BuyVolume)
    } else {
        None
    }
}

/// A field name with an optional `@suffix`.
pub open spec fn series_of(s: Seq<char>, sp: Span) -> Result<SeriesRef, ParseError> {
    let at = find_char(s, '@', sp.start as int, sp.end as int);
    let suffix = if at < sp.end {
        Some(Span { start: (at + 1) as usize, end: sp.end })
    } else {
        None
    };
    let suffix_ms = if at < sp.end {
        Some(
            match period_ms_of(s.subrange(at + 1, sp.end as int)) {
                Ok(ms) => Ok(ms as i64),
                Err(e) => Err(e),
            },
        )
    } else {
        None
    };
    match field_named(s.subrange(sp.start as int, at)) {
        Some(field) => Ok(SeriesRef { field, suffix, suffix_ms }),
        None => Err(ParseError::UnknownField),
    }
}

pub open spec fn usize_of(s: Seq<char>, v: Seq<Tok>) -> Result<usize, ParseError> {
    if v.len() != 1 {
        Err(ParseError::ExpectedSingleNumber)
    } else {
        match v[0] {
            Tok::Number(sp) => Ok(whole_part(s, sp)),
            Tok::Ident(_) => Err(ParseError::InvalidInteger),
            _ => Err(ParseError::ExpectedNumber),
        }
    }
}

pub open spec fn field_arg(s: Seq<char>, v: Seq<Tok>) -> Result<SeriesRef, ParseError> {
    if v.len() != 1 {
        Err(ParseError::FieldNotIdentifier)
    } else {
        match v[0] {
            Tok::Ident(sp) => series_of(s, sp),
            _ => Err(ParseError::FieldNotIdentifier),
        }
    }
}

/// One comma-separated argument `p`: `key = value`, a series, or the period.
pub open spec fn arg_step(s: Seq<char>, st: ArgState, p: Seq<Tok>, rsi: bool) -> Result<
    ArgState,
    ParseError,
> {
    if p.len() == 0 {
        Ok(st)
    } else if p.len() >= 3 && p[0] is Ident && p[1] == Tok::Assign {
        let key = match p[0] {
            Tok::Ident(sp) => text_of(s, sp),
            _ => Seq::empty(),
        };
        let v = p.skip(2);
        if ci_eq(key, seq!['P', 'E', 'R', 'I', 'O', 'D']) {
            match usize_of(s, v) {
                Ok(n) => Ok(ArgState { series: st.series, period: Some(n) }),
                Err(e) => Err(e),
            }
        } else if !rsi && ci_eq(key, seq!['F', 'I', 'E', 'L', 'D']) {
            match field_arg(s, v) {
                Ok(sr) => Ok(ArgState { series: Some(sr), period: st.period }),
                Err(e) => Err(e),
            }
        } else {
            Err(ParseError::UnknownArgument)
        }
    } else if st.series is None && p.len() == 1 && p[0] is Ident {
        match p[0] {
            Tok::Ident(sp) => match series_of(s, sp) {
                Ok(sr) => Ok(ArgState { series: Some(sr), period: st.period }),
                Err(e) => Err(e),
            },
            _ => Err(ParseError::UnknownField),
        }
    } else if st.period is None {
        match usize_of(s, p) {
            Ok(n) => Ok(ArgState { series: st.series, period: Some(n) }),
            Err(e) => Err(e),
        }
    } else {
        Err(ParseError::TooManyArguments)
    }
}

/// End of the argument starting at `a`: the next comma in `t[a..b]`, or `b`.
pub open spec fn comma_end(t: Seq<Tok>, a: int, b: int) -> int
    decreases b - a,
{
    if a < b && t[a] != Tok::Comma {
        comma_end(t, a + 1, b)
    } else {
        a
    }
}

pub proof fn lemma_comma_end(t: Seq<Tok>, a: int, b: int)
    requires
        a <= b,
    ensures
        a <= comma_end(t, a, b) <= b,
    decreases b - a,
{
    if a < b && t[a] != Tok::Comma {
        lemma_comma_end(t, a + 1, b);
    }
}

/// The arguments `t[a..b]`, taken left to right from state `st`.
pub open spec fn args_fold(s: Seq<char>, t: Seq<Tok>, a: int, b: int, st: ArgState, rsi: bool) -> Result<
    ArgState,
    ParseError,
>
    decreases b - a,
{
    if a > b {
        Ok(st)
    } else {
        let e = comma_end(t, a, b);
        proof {
            lemma_comma_end(t, a, b);
        }
        match arg_step(s, st, t.subrange(a, e), rsi) {
            Err(x) => Err(x),
            Ok(st2) => if e < b {
                args_fold(s, t, e + 1, b, st2, rsi)
            } else {
                Ok(st2)
            },
        }
    }
}

/// The call named `name` with arguments `t[a..b]`.
pub open spec fn call_of(s: Seq<char>, name: Span, t: Seq<Tok>, a: int, b: int) -> Result<
    IndicatorCall,
    ParseError,
> {
    let n = text_of(s, name);
    let init = ArgState { series: None, period: None };
    let close = SeriesRef { field: Field::Close, suffix: None, suffix_ms: None };
    if ci_eq(n, seq!['R', 'S', 'I']) {
        match args_fold(s, t, a, b, init, true) {
            Err(e) => Err(e),
            Ok(st) => match st.period {
                None => Err(ParseError::MissingPeriod),
                Some(period) => Ok(IndicatorCall::Rsi { series: st.series, period }),
            },
        }
    } else if ci_eq(n, seq!['S', 'M', 'A']) || ci_eq(n, seq!['E', 'M', 'A']) || ci_eq(
        n,
        seq!['S', 'T', 'D', 'D', 'E', 'V'],
    ) {
        match args_fold(s, t, a, b, init, false) {
            Err(e) => Err(e),
            Ok(st) => match st.period {
                None => Err(ParseError::MissingPeriod),
                Some(period) => {
                    let series = match st.series {
                        Some(x) => x,
                        None => close,
                    };
                    if ci_eq(n, seq!['S', 'M', 'A']) {
                        Ok(IndicatorCall::Sma { series, period })
                    } else if ci_eq(n, seq!['E', 'M', 'A']) {
                        Ok(IndicatorCall::Ema { series, period })
                    } else {
                        Ok(IndicatorCall::StdDev { series, period })
                    }
                },
            },
        }
    } else {
        Err(ParseError::UnsupportedIndicator)
    }
}

/// Position of the `)` that closes a call's arguments starting at `j`, or `t.len()`.
pub open spec fn args_end(t: Seq<Tok>, j: int, depth: nat) -> int
    decreases t.len() - j,
{
    if j < 0 || j >= t.len() {
        t.len() as int
    } else if t[j] == Tok::RParen {
        if depth == 0 {
            j
        } else {
            args_end(t, j + 1, (depth - 1) as nat)
        }
    } else if t[j] == Tok::LParen {
        args_end(t, j + 1, depth + 1)
    } else {
        args_end(t, j + 1, depth)
    }
}

pub open spec fn cmp_op_of(t: Tok) -> Option<CmpOp> {
    match t {
        Tok::Lt => Some(CmpOp::Lt),
        Tok::Le => Some(CmpOp::Le),
        Tok::Gt => Some(CmpOp::Gt),
        Tok::Ge => Some(CmpOp::Ge),
        Tok::EqEq => Some(CmpOp::Eq),
        Tok::NotEq => Some(CmpOp::Ne),
        _ => None,
    }
}

/// `call op number` at `i`, with the position after it.
pub open spec fn p_cmp(s: Seq<char>, t: Seq<Tok>, i: int) -> Result<(Cond, int), ParseError> {
    if !(0 <= i < t.len() && t[i] is Ident) {
        Err(ParseError::ExpectedIndicatorName)
    } else if !(i + 1 < t.len() && t[i + 1] == Tok::LParen) {
        Err(ParseError::ExpectedOpenParen)
    } else {
        let name = match t[i] {
            Tok::Ident(sp) => sp,
            _ => Span { start: 0, end: 0 },
        };
        let j = args_end(t, i + 2, 0);
        if j >= t.len() {
            Err(ParseError::MissingArgsCloseParen)
        } else {
            match call_of(s, name, t, i + 2, j) {
                Err(e) => Err(e),
                Ok(call) => {
                    let op = if j + 1 < t.len() {
                        cmp_op_of(t[j + 1])
                    } else {
                        None
                    };
                    match op {
                        None => Err(ParseError::MissingComparison),
                        Some(op) => if j + 2 < t.len() && t[j + 2] is Number {
                            let right = match t[j + 2] {
                                Tok::Number(sp) => sp,
                                _ => Span { start: 0, end: 0 },
                            };
                            Ok((Cond::Cmp { left: call, op, right }, j + 3))
                        } else {
                            Err(ParseError::ExpectedNumber)
                        },
                    }
                },
            }
        }
    }
}

/// `or_expr` at `i`, with the position after it.
pub open spec fn p_or(s: Seq<char>, t: Seq<Tok>, i: int) -> Result<(Cond, int), ParseError>
    decreases t.len() - i, 5int,
{
    match p_and(s, t, i) {
        Err(e) => Err(e),
        Ok((l, j)) => if i < j <= t.len() {
            or_tail(s, t, j, l)
        } else {
            Ok((l, j))
        },
    }
}

/// `(OR and_expr)*` at `j`, folded to the left onto `l`.
pub open spec fn or_tail(s: Seq<char>, t: Seq<Tok>, j: int, l: Cond) -> Result<(Cond, int), ParseError>
    decreases t.len() - j, 4int,
{
    if 0 <= j < t.len() && t[j] == Tok::Or {
        match p_and(s, t, j + 1) {
            Err(e) => Err(e),
            Ok((r, k)) => if j < k <= t.len() {
                or_tail(s, t, k, Cond::Or(Box::new(l), Box::new(r)))
            } else {
                Ok((l, k))
            },
        }
    } else {
        Ok((l, j))
    }
}

/// `and_expr` at `i`, with the position after it.
pub open spec fn p_and(s: Seq<char>, t: Seq<Tok>, i: int) -> Result<(Cond, int), ParseError>
    decreases t.len() - i, 3int,
{
    match p_unary(s, t, i) {
        Err(e) => Err(e),
        Ok((l, j)) => if i < j <= t.len() {
            and_tail(s, t, j, l)
        } else {
            Ok((l, j))
        },
    }
}

/// `(AND unary)*` at `j`, folded to the left onto `l`.
pub open spec fn and_tail(s: Seq<char>, t: Seq<Tok>, j: int, l: Cond) -> Result<(Cond, int), ParseError>
    decreases t.len() - j, 2int,
{
    if 0 <= j < t.len() && t[j] == Tok::And {
        match p_unary(s, t, j + 1) {
            Err(e) => Err(e),
            Ok((r, k)) => if j < k <= t.len() {
                and_tail(s, t, k, Cond::And(Box::new(l), Box::new(r)))
            } else {
                Ok((l, k))
            },
        }
    } else {
        Ok((l, j))
    }
}

/// `NOT* primary` at `i`.
pub open spec fn p_unary(s: Seq<char>, t: Seq<Tok>, i: int) -> Result<(Cond, int), ParseError>
    decreases t.len() - i, 1int,
{
    if 0 <= i < t.len() && t[i] == Tok::Not {
        match p_unary(s, t, i + 1) {
            Err(e) => Err(e),
            Ok((e, j)) => Ok((Cond::Not(Box::new(e)), j)),
        }
    } else {
        p_primary(s, t, i)
    }
}

/// `'(' or_expr ')'` or a comparison at `i`.
pub open spec fn p_primary(s: Seq<char>, t: Seq<Tok>, i: int) -> Result<(Cond, int), ParseError>
    decreases t.len() - i, 0int,
{
    if 0 <= i < t.len() && t[i] == Tok::LParen {
        match p_or(s, t, i + 1) {
            Err(e) => Err(e),
            Ok((e, j)) => if 0 <= j < t.len() && t[j] == Tok::RParen {
                Ok((e, j + 1))
            } else {
                Err(ParseError::MissingCloseParen)
            },
        }
    } else {
        p_cmp(s, t, i)
    }
}

/// A whole condition: an `or_expr` that uses every token.
pub open spec fn condition_of(s: Seq<char>, t: Seq<Tok>) -> Result<Cond, ParseError> {
    match p_or(s, t, 0) {
        Err(e) => Err(e),
        Ok((c, j)) => if j < t.len() {
            Err(ParseError::TrailingTokens)
        } else {
            Ok(c)
        },
    }
}

/// The parse of the text `s[from..to]`.
pub open spec fn parse_condition_spec(s: Seq<char>, from: int, to: int) -> Result<Cond, ParseError> {
    match lex_from(s, from, to) {
        Err(e) => Err(e),
        Ok(t) => condition_of(s, t),
    }
}


// ===== Parser: executable =====

pub open spec fn agrees(r: Result<(Cond, usize), ParseError>, q: Result<(Cond, int), ParseError>) -> bool {
    match q {
        Ok((c, j)) => r matches Ok((c2, j2)) && c2 == c && j2 == j,
        Err(e) => r == Err::<(Cond, usize), ParseError>(e),
    }
}

fn find_char_at(s: &Vec<char>, c: char, i: usize, end: usize) -> (r: usize)
    requires
        i <= end <= s@.len(),
    ensures
        r == find_char(s@, c, i as int, end as int),
        i <= r <= end,
{
    let mut k = i;
    while k < end && s[k] != c
        invariant
            i <= k <= end <= s@.len(),
            find_char(s@, c, i as int, end as int) == find_char(s@, c, k as int, end as int),
        decreases end - k,
    {
        k = k + 1;
    }
    proof {
        lemma_find_char(s@, c, k as int, end as int);
    }
    k
}

/// The whole part of the number `s[sp]`, saturating at `usize::MAX`.
fn whole_part_of(s: &Vec<char>, sp: Span) -> (r: usize)
    requires
        tok_ok(Tok::Number(sp), s@),
    ensures
        r == whole_part(s@, sp),
{
    let d = find_char_at(s, '.', sp.start, sp.end);
    let ghost ds = s@.subrange(sp.start as int, d as int);
    proof {
        lemma_find_char(s@, '.', sp.start as int, sp.end as int);
    }
    let mut n: usize = 0;
    let mut k = sp.start;
    while k < d
        invariant
            sp.start <= k <= d <= sp.end <= s@.len(),
            forall|m: int| sp.start <= m < sp.end ==> num_char(#[trigger] s@[m]),
            d == find_char(s@, '.', sp.start as int, sp.end as int),
            n == (if digits_value(s@.subrange(sp.start as int, k as int)) > usize::MAX {
                usize::MAX as int
            } else {
                digits_value(s@.subrange(sp.start as int, k as int)) as int
            }),
        decreases d - k,
    {
        assert(num_char(s@[k as int]));
        assert(s@[k as int] != '.') by {
            if s@[k as int] == '.' {
                lemma_find_char_first(s@, '.', sp.start as int, sp.end as int, k as int);
            }
        }
        let v = (s[k] as u32 - '0' as u32) as usize;
        let ghost prev = digits_value(s@.subrange(sp.start as int, k as int));
        assert(s@.subrange(sp.start as int, k + 1).drop_last() =~= s@.subrange(sp.start as int, k as int));
        assert(digits_value(s@.subrange(sp.start as int, k + 1)) == prev * 10 + v);
        if n > (usize::MAX - v) / 10 {
            assert(prev * 10 + v > usize::MAX) by (nonlinear_arith)
                requires
                    n > (usize::MAX - v) / 10,
                    n <= prev,
                    0 <= v <= 9,
            ;
            n = usize::MAX;
        } else {
            assert(n * 10 + v <= usize::MAX) by (nonlinear_arith)
                requires
                    n <= (usize::MAX - v) / 10,
                    0 <= v <= 9,
            ;
            n = n * 10 + v;
        }
        k = k + 1;
    }
    n
}

proof fn lemma_find_char_first(s: Seq<char>, c: char, i: int, end: int, k: int)
    requires
        i <= k < end,
        s[k] == c,
    ensures
        find_char(s, c, i, end) <= k,
    decreases k - i,
{
    if i < end && s[i] != c {
        lemma_find_char_first(s, c, i + 1, end, k);
    }
}

pub fn parse_series_ref_str(s: &Vec<char>, sp: Span) -> (r: Result<SeriesRef, ParseError>)
    requires
        sp.start <= sp.end <= s@.len(),
    ensures
        r == series_of(s@, sp),
{
    let at = find_char_at(s, '@', sp.start, sp.end);
    let suffix = if at < sp.end {
        Some(Span { start: at + 1, end: sp.end })
    } else {
        None
    };
    let a = sp.start;
    let field = if ci_eq_at(s, a, at, &['o', 'p', 'e', 'n']) {
        Field::Open
    } else if ci_eq_at(s, a, at, &['h', 'i', 'g', 'h']) {
        Field::High
    } else if ci_eq_at(s, a, at, &['l', 'o', 'w']) {
        Field::Low
    } else if ci_eq_at(s, a, at, &['c', 'l', 'o', 's', 'e']) {
        Field::Close
    } else if ci_eq_at(s, a, at, &['v', 'o', 'l', 'u', 'm', 'e']) {
        Field::Volume
    } else if ci_eq_at(s, a, at, &['b', 'u', 'y', '_', 'v', 'o', 'l', 'u', 'm', 'e']) || ci_eq_at(
        s,
        a,
        at,
        &['b', 'u', 'y', 'v', 'o', 'l', 'u', 'm', 'e'],
    ) {
        Field::BuyVolume
    } else {
        return Err(ParseError::UnknownField);
    };
    let suffix_ms = if at < sp.end {
        Some(
            match Period::parse_chars(s, at + 1, sp.end) {
                Ok(p) => Ok(p.as_ms()),
                Err(e) => Err(e),
            },
        )
    } else {
        None
    };
    Ok(SeriesRef { field, suffix, suffix_ms })
}

fn usize_at(s: &Vec<char>, t: &Vec<Tok>, a: usize, b: usize) -> (r: Result<usize, ParseError>)
    requires
        a <= b <= t@.len(),
        spans_in(t@, s@),
    ensures
        r == usize_of(s@, t@.subrange(a as int, b as int)),
{
    if b - a != 1 {
        return Err(ParseError::ExpectedSingleNumber);
    }
    assert(t@.subrange(a as int, b as int)[0] == t@[a as int]);
    match t[a] {
        Tok::Number(sp) => {
            assert(tok_ok(t@[a as int], s@));
            Ok(whole_part_of(s, sp))
        },
        Tok::Ident(_) => Err(ParseError::InvalidInteger),
        _ => Err(ParseError::ExpectedNumber),
    }
}

fn field_at(s: &Vec<char>, t: &Vec<Tok>, a: usize, b: usize) -> (r: Result<SeriesRef, ParseError>)
    requires
        a <= b <= t@.len(),
        spans_in(t@, s@),
    ensures
        r == field_arg(s@, t@.subrange(a as int, b as int)),
{
    if b - a != 1 {
        return Err(ParseError::FieldNotIdentifier);
    }
    assert(t@.subrange(a as int, b as int)[0] == t@[a as int]);
    match t[a] {
        Tok::Ident(sp) => {
            assert(tok_ok(t@[a as int], s@));
            parse_series_ref_str(s, sp)
        },
        _ => Err(ParseError::FieldNotIdentifier),
    }
}

fn arg_step_at(s: &Vec<char>, t: &Vec<Tok>, st: ArgState, a: usize, e: usize, rsi: bool) -> (r: Result<
    ArgState,
    ParseError,
>)
    requires
        a <= e <= t@.len(),
        spans_in(t@, s@),
    ensures
        r == arg_step(s@, st, t@.subrange(a as int, e as int), rsi),
{
    let ghost p = t@.subrange(a as int, e as int);
    if a == e {
        return Ok(st);
    }
    assert(p[0] == t@[a as int]);
    if e - a >= 3 && t[a + 1] == Tok::Assign {
        if let Tok::Ident(key) = t[a] {
            assert(p[1] == t@[a + 1]);
            assert(p.skip(2) =~= t@.subrange(a + 2, e as int));
            assert(tok_ok(t@[a as int], s@));
            if ci_eq_at(s, key.start, key.end, &['P', 'E', 'R', 'I', 'O', 'D']) {
                let n = usize_at(s, t, a + 2, e)?;
                return Ok(ArgState { series: st.series, period: Some(n) });
            } else if !rsi && ci_eq_at(s, key.start, key.end, &['F', 'I', 'E', 'L', 'D']) {
                let sr = field_at(s, t, a + 2, e)?;
                return Ok(ArgState { series: Some(sr), period: st.period });
            } else {
                return Err(ParseError::UnknownArgument);
            }
        }
    }
    if st.series.is_none() && e - a == 1 {
        if let Tok::Ident(sp) = t[a] {
            assert(tok_ok(t@[a as int], s@));
            let sr = parse_series_ref_str(s, sp)?;
            return Ok(ArgState { series: Some(sr), period: st.period });
        }
    }
    if st.period.is_none() {
        let n = usize_at(s, t, a, e)?;
        return Ok(ArgState { series: st.series, period: Some(n) });
    }
    Err(ParseError::TooManyArguments)
}

fn args_at(s: &Vec<char>, t: &Vec<Tok>, from: usize, b: usize, rsi: bool) -> (r: Result<
    ArgState,
    ParseError,
>)
    requires
        from <= b <= t@.len(),
        spans_in(t@, s@),
    ensures
        r == args_fold(s@, t@, from as int, b as int, ArgState { series: None, period: None }, rsi),
{
    let mut a = from;
    let mut st = ArgState { series: None, period: None };
    loop
        invariant
            from <= a <= b <= t@.len(),
            spans_in(t@, s@),
            args_fold(s@, t@, from as int, b as int, ArgState { series: None, period: None }, rsi)
                == args_fold(s@, t@, a as int, b as int, st, rsi),
        decreases b - a,
    {
        let mut e = a;
        while e < b && t[e] != Tok::Comma
            invariant
                a <= e <= b <= t@.len(),
                comma_end(t@, a as int, b as int) == comma_end(t@, e as int, b as int),
            decreases b - e,
        {
            e = e + 1;
        }
        st = arg_step_at(s, t, st, a, e, rsi)?;
        if e < b {
            a = e + 1;
        } else {
            return Ok(st);
        }
    }
}

fn call_at(s: &Vec<char>, name: Span, t: &Vec<Tok>, a: usize, b: usize) -> (r: Result<
    IndicatorCall,
    ParseError,
>)
    requires
        a <= b <= t@.len(),
        name.start <= name.end <= s@.len(),
        spans_in(t@, s@),
    ensures
        r == call_of(s@, name, t@, a as int, b as int),
{
    let (n0, n1) = (name.start, name.end);
    if ci_eq_at(s, n0, n1, &['R', 'S', 'I']) {
        let st = args_at(s, t, a, b, true)?;
        return match st.period {
            None => Err(ParseError::MissingPeriod),
            Some(period) => Ok(IndicatorCall::Rsi { series: st.series, period }),
        };
    }
    let sma = ci_eq_at(s, n0, n1, &['S', 'M', 'A']);
    let ema = ci_eq_at(s, n0, n1, &['E', 'M', 'A']);
    let std = ci_eq_at(s, n0, n1, &['S', 'T', 'D', 'D', 'E', 'V']);
    if !(sma || ema || std) {
        return Err(ParseError::UnsupportedIndicator);
    }
    let st = args_at(s, t, a, b, false)?;
    let period = match st.period {
        None => return Err(ParseError::MissingPeriod),
        Some(p) => p,
    };
    let series = match st.series {
        Some(x) => x,
        None => SeriesRef { field: Field::Close, suffix: None, suffix_ms: None },
    };
    if sma {
        Ok(IndicatorCall::Sma { series, period })
    } else if ema {
        Ok(IndicatorCall::Ema { series, period })
    } else {
        Ok(IndicatorCall::StdDev { series, period })
    }
}

fn cmp_op_at(t: Tok) -> (r: Option<CmpOp>)
    ensures
        r == cmp_op_of(t),
{
    match t {
        Tok::Lt => Some(CmpOp::Lt),
        Tok::Le => Some(CmpOp::Le),
        Tok::Gt => Some(CmpOp::Gt),
        Tok::Ge => Some(CmpOp::Ge),
        Tok::EqEq => Some(CmpOp::Eq),
        Tok::NotEq => Some(CmpOp::Ne),
        _ => None,
    }
}

fn parse_cmp(s: &Vec<char>, t: &Vec<Tok>, i: usize) -> (r: Result<(Cond, usize), ParseError>)
    requires
        i <= t@.len(),
        spans_in(t@, s@),
    ensures
        agrees(r, p_cmp(s@, t@, i as int)),
        r matches Ok((_, j)) ==> i < j <= t@.len(),
{
    if i >= t.len() {
        return Err(ParseError::ExpectedIndicatorName);
    }
    let name = match t[i] {
        Tok::Ident(sp) => sp,
        _ => return Err(ParseError::ExpectedIndicatorName),
    };
    assert(tok_ok(t@[i as int], s@));
    if !(i + 1 < t.len() && t[i + 1] == Tok::LParen) {
        return Err(ParseError::ExpectedOpenParen);
    }
    let mut j = i + 2;
    let mut depth: usize = 0;
    while j < t.len() && !(t[j] == Tok::RParen && depth == 0)
        invariant
            i + 2 <= j <= t@.len(),
            depth <= j,
            args_end(t@, i + 2, 0) == args_end(t@, j as int, depth as nat),
        decreases t@.len() - j,
    {
        if t[j] == Tok::LParen {
            depth = depth + 1;
        } else if t[j] == Tok::RParen {
            depth = depth - 1;
        }
        j = j + 1;
    }
    if j >= t.len() {
        return Err(ParseError::MissingArgsCloseParen);
    }
    let call = call_at(s, name, t, i + 2, j)?;
    let op = if j + 1 < t.len() {
        cmp_op_at(t[j + 1])
    } else {
        None
    };
    let op = match op {
        None => return Err(ParseError::MissingComparison),
        Some(o) => o,
    };
    if !(j + 2 < t.len()) {
        return Err(ParseError::ExpectedNumber);
    }
    match t[j + 2] {
        Tok::Number(right) => Ok((Cond::Cmp { left: call, op, right }, j + 3)),
        _ => Err(ParseError::ExpectedNumber),
    }
}

fn parse_or(s: &Vec<char>, t: &Vec<Tok>, i: usize) -> (r: Result<(Cond, usize), ParseError>)
    requires
        i <= t@.len(),
        spans_in(t@, s@),
    ensures
        agrees(r, p_or(s@, t@, i as int)),
        r matches Ok((_, j)) ==> i < j <= t@.len(),
    decreases t@.len() - i, 5int,
{
    let (mut l, mut j) = match parse_and(s, t, i) {
        Ok(x) => x,
        Err(e) => return Err(e),
    };
    while j < t.len() && t[j] == Tok::Or
        invariant
            i < j <= t@.len(),
            spans_in(t@, s@),
            p_or(s@, t@, i as int) == or_tail(s@, t@, j as int, l),
        decreases t@.len() - j,
    {
        let (r, k) = match parse_and(s, t, j + 1) {
            Ok(x) => x,
            Err(e) => return Err(e),
        };
        l = Cond::Or(Box::new(l), Box::new(r));
        j = k;
    }
    Ok((l, j))
}

fn parse_and(s: &Vec<char>, t: &Vec<Tok>, i: usize) -> (r: Result<(Cond, usize), ParseError>)
    requires
        i <= t@.len(),
        spans_in(t@, s@),
    ensures
        agrees(r, p_and(s@, t@, i as int)),
        r matches Ok((_, j)) ==> i < j <= t@.len(),
    decreases t@.len() - i, 3int,
{
    let (mut l, mut j) = match parse_unary(s, t, i) {
        Ok(x) => x,
        Err(e) => return Err(e),
    };
    while j < t.len() && t[j] == Tok::And
        invariant
            i < j <= t@.len(),
            spans_in(t@, s@),
            p_and(s@, t@, i as int) == and_tail(s@, t@, j as int, l),
        decreases t@.len() - j,
    {
        let (r, k) = match parse_unary(s, t, j + 1) {
            Ok(x) => x,
            Err(e) => return Err(e),
        };
        l = Cond::And(Box::new(l), Box::new(r));
        j = k;
    }
    Ok((l, j))
}

fn parse_unary(s: &Vec<char>, t: &Vec<Tok>, i: usize) -> (r: Result<(Cond, usize), ParseError>)
    requires
        i <= t@.len(),
        spans_in(t@, s@),
    ensures
        agrees(r, p_unary(s@, t@, i as int)),
        r matches Ok((_, j)) ==> i < j <= t@.len(),
    decreases t@.len() - i, 1int,
{
    if i < t.len() && t[i] == Tok::Not {
        let (e, j) = match parse_unary(s, t, i + 1) {
            Ok(x) => x,
            Err(e) => return Err(e),
        };
        return Ok((Cond::Not(Box::new(e)), j));
    }
    parse_primary(s, t, i)
}

fn parse_primary(s: &Vec<char>, t: &Vec<Tok>, i: usize) -> (r: Result<(Cond, usize), ParseError>)
    requires
        i <= t@.len(),
        spans_in(t@, s@),
    ensures
        agrees(r, p_primary(s@, t@, i as int)),
        r matches Ok((_, j)) ==> i < j <= t@.len(),
    decreases t@.len() - i, 0int,
{
    if i < t.len() && t[i] == Tok::LParen {
        let (e, j) = match parse_or(s, t, i + 1) {
            Ok(x) => x,
            Err(e) => return Err(e),
        };
        if j < t.len() && t[j] == Tok::RParen {
            return Ok((e, j + 1));
        }
        return Err(ParseError::MissingCloseParen);
    }
    parse_cmp(s, t, i)
}

/// Parses the condition text `s[from..to]`.
pub fn parse_condition(s: &Vec<char>, from: usize, to: usize) -> (r: Result<Cond, ParseError>)
    requires
        from <= to <= s@.len(),
    ensures
        match parse_condition_spec(s@, from as int, to as int) {
            Ok(c) => r matches Ok(c2) && c2 == c,
            Err(e) => r matches Err(e2) && e2 == e,
        },
{
    let t = lex(s, from, to)?;
    let n = s.len();
    proof {
        lemma_lex_spans(s@, from as int, to as int);
    }
    let (c, j) = parse_or(s, &t, 0)?;
    if j < t.len() {
        return Err(ParseError::TrailingTokens);
    }
    Ok(c)
}


/// Every comparison's threshold span in `c` lies within `s`.
pub open spec fn cond_spans_ok(c: Cond, s: Seq<char>) -> bool
    decreases c,
{
    match c {
        Cond::Cmp { right, .. } => right.start <= right.end <= s.len(),
        Cond::And(a, b) => cond_spans_ok(*a, s) && cond_spans_ok(*b, s),
        Cond::Or(a, b) => cond_spans_ok(*a, s) && cond_spans_ok(*b, s),
        Cond::Not(x) => cond_spans_ok(*x, s),
    }
}

proof fn lemma_cmp_spans(s: Seq<char>, t: Seq<Tok>, i: int)
    requires
        spans_in(t, s),
    ensures
        p_cmp(s, t, i) matches Ok((c, _)) ==> cond_spans_ok(c, s),
{
    if 0 <= i < t.len() && t[i] is Ident && i + 1 < t.len() && t[i + 1] == Tok::LParen {
        let j = args_end(t, i + 2, 0);
        if 0 <= j && j + 2 < t.len() {
            assert(tok_ok(t[j + 2], s));
        }
    }
}

proof fn lemma_or_spans(s: Seq<char>, t: Seq<Tok>, i: int)
    requires
        spans_in(t, s),
    ensures
        p_or(s, t, i) matches Ok((c, _)) ==> cond_spans_ok(c, s),
    decreases t.len() - i, 5int,
{
    lemma_and_spans(s, t, i);
    if let Ok((l, j)) = p_and(s, t, i) {
        if i < j <= t.len() {
            lemma_or_tail_spans(s, t, j, l);
        }
    }
}

proof fn lemma_or_tail_spans(s: Seq<char>, t: Seq<Tok>, j: int, l: Cond)
    requires
        spans_in(t, s),
        cond_spans_ok(l, s),
    ensures
        or_tail(s, t, j, l) matches Ok((c, _)) ==> cond_spans_ok(c, s),
    decreases t.len() - j, 4int,
{
    if 0 <= j < t.len() && t[j] == Tok::Or {
        lemma_and_spans(s, t, j + 1);
        if let Ok((r, k)) = p_and(s, t, j + 1) {
            if j < k <= t.len() {
                lemma_or_tail_spans(s, t, k, Cond::Or(Box::new(l), Box::new(r)));
            }
        }
    }
}

proof fn lemma_and_spans(s: Seq<char>, t: Seq<Tok>, i: int)
    requires
        spans_in(t, s),
    ensures
        p_and(s, t, i) matches Ok((c, _)) ==> cond_spans_ok(c, s),
    decreases t.len() - i, 3int,
{
    lemma_unary_spans(s, t, i);
    if let Ok((l, j)) = p_unary(s, t, i) {
        if i < j <= t.len() {
            lemma_and_tail_spans(s, t, j, l);
        }
    }
}

proof fn lemma_and_tail_spans(s: Seq<char>, t: Seq<Tok>, j: int, l: Cond)
    requires
        spans_in(t, s),
        cond_spans_ok(l, s),
    ensures
        and_tail(s, t, j, l) matches Ok((c, _)) ==> cond_spans_ok(c, s),
    decreases t.len() - j, 2int,
{
    if 0 <= j < t.len() && t[j] == Tok::And {
        lemma_unary_spans(s, t, j + 1);
        if let Ok((r, k)) = p_unary(s, t, j + 1) {
            if j < k <= t.len() {
                lemma_and_tail_spans(s, t, k, Cond::And(Box::new(l), Box::new(r)));
            }
        }
    }
}

proof fn lemma_unary_spans(s: Seq<char>, t: Seq<Tok>, i: int)
    requires
        spans_in(t, s),
    ensures
        p_unary(s, t, i) matches Ok((c, _)) ==> cond_spans_ok(c, s),
    decreases t.len() - i, 1int,
{
    if 0 <= i < t.len() && t[i] == Tok::Not {
        lemma_unary_spans(s, t, i + 1);
    } else {
        lemma_primary_spans(s, t, i);
    }
}

proof fn lemma_primary_spans(s: Seq<char>, t: Seq<Tok>, i: int)
    requires
        spans_in(t, s),
    ensures
        p_primary(s, t, i) matches Ok((c, _)) ==> cond_spans_ok(c, s),
    decreases t.len() - i, 0int,
{
    if 0 <= i < t.len() && t[i] == Tok::LParen {
        lemma_or_spans(s, t, i + 1);
    } else {
        lemma_cmp_spans(s, t, i);
    }
}

/// Thresholds of a parsed condition are spans of its text.
pub proof fn lemma_condition_spans(s: Seq<char>, from: int, to: int)
    requires
        0 <= from,
        to <= s.len() <= usize::MAX,
    ensures
        parse_condition_spec(s, from, to) matches Ok(c) ==> cond_spans_ok(c, s),
{
    lemma_lex_spans(s, from, to);
    if let Ok(t) = lex_from(s, from, to) {
        lemma_or_spans(s, t, 0);
    }
}


/// AND binds tighter than OR: when `t` is `A OR B AND C`, with A, B and C unary conditions
/// (each possibly under NOT) that parse to `a`, `b` and `c`, the condition is
/// `a OR (b AND c)`, the same tree as for the parenthesized `A OR (B AND C)` below.
pub proof fn lemma_and_before_or(s: Seq<char>, t: Seq<Tok>, a: Cond, b: Cond, c: Cond, i1: int, i2: int, i3: int)
    requires
        0 < i1,
        i1 + 1 < i2,
        i2 + 1 < i3,
        i3 == t.len(),
        p_unary(s, t, 0) == Ok::<(Cond, int), ParseError>((a, i1)),
        t[i1] == Tok::Or,
        p_unary(s, t, i1 + 1) == Ok::<(Cond, int), ParseError>((b, i2)),
        t[i2] == Tok::And,
        p_unary(s, t, i2 + 1) == Ok::<(Cond, int), ParseError>((c, i3)),
    ensures
        condition_of(s, t) == Ok::<Cond, ParseError>(Cond::Or(Box::new(a), Box::new(Cond::And(Box::new(b), Box::new(c))))),
{
    let bc = Cond::And(Box::new(b), Box::new(c));
    assert(and_tail(s, t, i3, bc) == Ok::<(Cond, int), ParseError>((bc, i3)));
    assert(and_tail(s, t, i2, b) == Ok::<(Cond, int), ParseError>((bc, i3)));
    assert(p_and(s, t, i1 + 1) == Ok::<(Cond, int), ParseError>((bc, i3)));
    let abc = Cond::Or(Box::new(a), Box::new(bc));
    assert(or_tail(s, t, i3, abc) == Ok::<(Cond, int), ParseError>((abc, i3)));
    assert(or_tail(s, t, i1, a) == Ok::<(Cond, int), ParseError>((abc, i3)));
    assert(and_tail(s, t, i1, a) == Ok::<(Cond, int), ParseError>((a, i1)));
    assert(p_and(s, t, 0) == Ok::<(Cond, int), ParseError>((a, i1)));
    assert(p_or(s, t, 0) == Ok::<(Cond, int), ParseError>((abc, i3)));
}

/// The parenthesized form: when `t` is `A OR ( B AND C )` with the same unary conditions,
/// the condition is again `a OR (b AND c)`.
pub proof fn lemma_grouped_and(s: Seq<char>, t: Seq<Tok>, a: Cond, b: Cond, c: Cond, i1: int, i2: int, i3: int)
    requires
        0 < i1,
        i1 + 2 < i2,
        i2 + 1 < i3,
        i3 + 1 == t.len(),
        p_unary(s, t, 0) == Ok::<(Cond, int), ParseError>((a, i1)),
        t[i1] == Tok::Or,
        t[i1 + 1] == Tok::LParen,
        p_unary(s, t, i1 + 2) == Ok::<(Cond, int), ParseError>((b, i2)),
        t[i2] == Tok::And,
        p_unary(s, t, i2 + 1) == Ok::<(Cond, int), ParseError>((c, i3)),
        t[i3] == Tok::RParen,
    ensures
        condition_of(s, t) == Ok::<Cond, ParseError>(Cond::Or(Box::new(a), Box::new(Cond::And(Box::new(b), Box::new(c))))),
{
    let bc = Cond::And(Box::new(b), Box::new(c));
    assert(and_tail(s, t, i3, bc) == Ok::<(Cond, int), ParseError>((bc, i3)));
    assert(and_tail(s, t, i2, b) == Ok::<(Cond, int), ParseError>((bc, i3)));
    assert(p_and(s, t, i1 + 2) == Ok::<(Cond, int), ParseError>((bc, i3)));
    assert(or_tail(s, t, i3, bc) == Ok::<(Cond, int), ParseError>((bc, i3)));
    assert(p_or(s, t, i1 + 2) == Ok::<(Cond, int), ParseError>((bc, i3)));
    assert(p_primary(s, t, i1 + 1) == Ok::<(Cond, int), ParseError>((bc, i3 + 1)));
    assert(p_unary(s, t, i1 + 1) == Ok::<(Cond, int), ParseError>((bc, i3 + 1)));
    assert(and_tail(s, t, i3 + 1, bc) == Ok::<(Cond, int), ParseError>((bc, i3 + 1)));
    assert(p_and(s, t, i1 + 1) == Ok::<(Cond, int), ParseError>((bc, i3 + 1)));
    let abc = Cond::Or(Box::new(a), Box::new(bc));
    assert(or_tail(s, t, i3 + 1, abc) == Ok::<(Cond, int), ParseError>((abc, i3 + 1)));
    assert(or_tail(s, t, i1, a) == Ok::<(Cond, int), ParseError>((abc, i3 + 1)));
    assert(and_tail(s, t, i1, a) == Ok::<(Cond, int), ParseError>((a, i1)));
    assert(p_and(s, t, 0) == Ok::<(Cond, int), ParseError>((a, i1)));
    assert(p_or(s, t, 0) == Ok::<(Cond, int), ParseError>((abc, i3 + 1)));
}

} // verus!
