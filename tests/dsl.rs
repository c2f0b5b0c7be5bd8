use hquant::dsl::{
    is_ident_cont, is_ident_start, lex, parse_condition, parse_series_ref_str, Cond, ParseError, Span, Tok,
};
use hquant::period::PeriodError;
use hquant::strategy::parse_action;
use hquant::types::{Action, Field};

fn chars(s: &str) -> Vec<char> {
    s.chars().collect()
}

#[test]
fn actions_ignore_case_and_parens() {
    let s = chars("buy() Sell HOLD jump");
    assert_eq!(parse_action(&s, 0, 5), Some(Action::Buy));
    assert_eq!(parse_action(&s, 6, 10), Some(Action::Sell));
    assert_eq!(parse_action(&s, 11, 15), Some(Action::Hold));
    assert_eq!(parse_action(&s, 16, 20), None);
    assert_eq!(Action::Sell.code(), 2);
}

#[test]
fn identifier_classes() {
    assert!(is_ident_start('_') && is_ident_start('a') && !is_ident_start('1'));
    assert!(is_ident_cont('@') && is_ident_cont('9') && !is_ident_cont('('));
}

#[test]
fn series_refs() {
    let s = chars("Close@4h buyvolume open@ high@zz low");
    let r = parse_series_ref_str(&s, Span { start: 0, end: 8 }).unwrap();
    assert_eq!(r.field, Field::Close);
    assert_eq!(r.suffix, Some(Span { start: 6, end: 8 }));
    assert_eq!(r.suffix_ms, Some(Ok(14_400_000)));
    assert_eq!(parse_series_ref_str(&s, Span { start: 9, end: 18 }).unwrap().field, Field::BuyVolume);
    assert_eq!(parse_series_ref_str(&s, Span { start: 19, end: 24 }).unwrap().suffix_ms, Some(Err(PeriodError::Empty)));
    assert_eq!(
        parse_series_ref_str(&s, Span { start: 25, end: 32 }).unwrap().suffix_ms,
        Some(Err(PeriodError::MissingNumber))
    );
    assert_eq!(parse_series_ref_str(&s, Span { start: 33, end: 36 }).unwrap().suffix, None);
    assert_eq!(parse_series_ref_str(&s, Span { start: 0, end: 3 }), Err(ParseError::UnknownField));
}

#[test]
fn tokens() {
    let s = chars("NOT rsi(14) <= 3.5 and x != 1");
    let t = lex(&s, 0, s.len()).unwrap();
    assert_eq!(
        t,
        vec![
            Tok::Not,
            Tok::Ident(Span { start: 4, end: 7 }),
            Tok::LParen,
            Tok::Number(Span { start: 8, end: 10 }),
            Tok::RParen,
            Tok::Le,
            Tok::Number(Span { start: 15, end: 18 }),
            Tok::And,
            Tok::Ident(Span { start: 23, end: 24 }),
            Tok::NotEq,
            Tok::Number(Span { start: 28, end: 29 }),
        ]
    );
    assert_eq!(lex(&chars("a = b == c"), 0, 10).unwrap()[1], Tok::Assign);
    assert_eq!(lex(&chars("1 . 2"), 0, 5), Err(ParseError::InvalidNumber));
    assert_eq!(lex(&chars("a # b"), 0, 5), Err(ParseError::UnexpectedChar));
}

#[test]
fn not_binds_tightest() {
    let s = chars("NOT RSI(3) < 1 AND SMA(4) > 2");
    match parse_condition(&s, 0, s.len()).unwrap() {
        Cond::And(a, _) => assert!(matches!(*a, Cond::Not(_))),
        other => panic!("unexpected parse {:?}", other),
    }
}
