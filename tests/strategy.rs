use hquant::dsl::{CmpOp, ParseError};
use hquant::graph::IndicatorGraph;
use hquant::period::PeriodError;
use hquant::strategy::{compile_multi_strategy, compile_strategy, CompiledStrategy, RuleError, StrategyError};
use hquant::types::{Action, Field, IndicatorId, IndicatorSpec, MultiIndicatorRef, Signal, StrategyId, StrategyScope};

fn compile(dsl: &str, g: &mut IndicatorGraph) -> Result<CompiledStrategy, StrategyError> {
    compile_strategy(StrategyId(7), "s".to_string(), dsl, g)
}

fn fire(cs: &CompiledStrategy, truth: &[bool]) -> Option<Action> {
    cs.evaluate(&truth.to_vec(), 0).map(|s| s.action)
}

#[test]
fn compiles_and_binds_comparisons() {
    let mut g = IndicatorGraph::new(32);
    let cs = compile("IF RSI(3) < 30 THEN BUY", &mut g).unwrap();
    assert_eq!(cs.comparison_count(), 1);
    assert_eq!(cs.rule_count(), 1);
    let c = cs.comparison(0).unwrap();
    assert_eq!(c.operand, IndicatorId(1));
    assert_eq!(c.op, CmpOp::Lt);
    assert_eq!(c.threshold, "30");
    assert!(cs.comparison(1).is_none());
    assert_eq!(g.spec_of(IndicatorId(1)), Some(IndicatorSpec::Rsi { period: 3 }));
    assert_eq!(cs.scope, StrategyScope::Single);
    assert_eq!(cs.name, "s");
    assert_eq!(
        cs.evaluate(&vec![true], 42),
        Some(Signal { strategy_id: 7, action: Action::Buy, timestamp: 42 })
    );
    assert_eq!(cs.evaluate(&vec![false], 42), None);
}

#[test]
fn parses_parentheses_not_and_fields() {
    let mut g = IndicatorGraph::new(32);
    g.add(IndicatorSpec::Rsi { period: 3 });
    g.add(IndicatorSpec::Sma { field: Field::Close, period: 3 });
    let cs = compile("IF NOT (RSI(3) > 70) AND (SMA(close, period=3) < 200) THEN BUY", &mut g).unwrap();
    assert_eq!(g.len(), 2);
    assert_eq!(cs.comparison(0).unwrap().operand, IndicatorId(1));
    assert_eq!(cs.comparison(1).unwrap().operand, IndicatorId(2));
    assert_eq!(cs.comparison(1).unwrap().threshold, "200");
    assert_eq!(fire(&cs, &[false, true]), Some(Action::Buy));
    assert_eq!(fire(&cs, &[true, true]), None);
    assert_eq!(fire(&cs, &[false, false]), None);
}

#[test]
fn and_binds_tighter_than_or() {
    let a = "RSI(3) < 30";
    let b = "SMA(close, 3) > 100";
    let c = "EMA(close, 5) < 50";
    let mut g1 = IndicatorGraph::new(8);
    let mut g2 = IndicatorGraph::new(8);
    let mut g3 = IndicatorGraph::new(8);
    let plain = compile(&format!("IF {a} OR {b} AND {c} THEN BUY"), &mut g1).unwrap();
    let grouped = compile(&format!("IF {a} OR ({b} AND {c}) THEN BUY"), &mut g2).unwrap();
    let other = compile(&format!("IF ({a} OR {b}) AND {c} THEN BUY"), &mut g3).unwrap();
    let mut differs = false;
    for bits in 0..8u32 {
        let truth = [bits & 1 != 0, bits & 2 != 0, bits & 4 != 0];
        assert_eq!(fire(&plain, &truth), fire(&grouped, &truth));
        let want = truth[0] || (truth[1] && truth[2]);
        assert_eq!(fire(&plain, &truth).is_some(), want);
        if fire(&other, &truth) != fire(&plain, &truth) {
            differs = true;
        }
    }
    assert!(differs);
}

#[test]
fn first_matching_rule_wins() {
    let mut g = IndicatorGraph::new(8);
    let dsl = "# comment\n\nIF RSI(14) < 30 THEN BUY\n  if rsi(14) > 70 then sell()  \nIF RSI(14) >= 0 THEN HOLD\n";
    let cs = compile(dsl, &mut g).unwrap();
    assert_eq!(cs.rule_count(), 3);
    assert_eq!(g.len(), 1);
    assert_eq!(fire(&cs, &[true, true, true]), Some(Action::Buy));
    assert_eq!(fire(&cs, &[false, true, true]), Some(Action::Sell));
    assert_eq!(fire(&cs, &[false, false, true]), Some(Action::Hold));
    assert_eq!(fire(&cs, &[false, false, false]), None);
}

#[test]
fn operators_and_numbers() {
    let mut g = IndicatorGraph::new(8);
    let cs = compile(
        "IF RSI(period=14) != 50.5 OR EMA(high, 3) <= .5 OR STDDEV(volume, 2) >= 1. OR SMA(buy_volume, 4) == 7 THEN SELL",
        &mut g,
    )
    .unwrap();
    let ops: Vec<CmpOp> = (0..4).map(|k| cs.comparison(k).unwrap().op).collect();
    assert_eq!(ops, vec![CmpOp::Ne, CmpOp::Le, CmpOp::Ge, CmpOp::Eq]);
    let texts: Vec<String> = (0..4).map(|k| cs.comparison(k).unwrap().threshold.clone()).collect();
    assert_eq!(texts, vec!["50.5", ".5", "1.", "7"]);
    assert_eq!(g.spec_of(IndicatorId(2)), Some(IndicatorSpec::Ema { field: Field::High, period: 3 }));
    assert_eq!(g.spec_of(IndicatorId(3)), Some(IndicatorSpec::StdDev { field: Field::Volume, period: 2 }));
    assert_eq!(g.spec_of(IndicatorId(4)), Some(IndicatorSpec::Sma { field: Field::BuyVolume, period: 4 }));
}

#[test]
fn period_takes_the_whole_part() {
    let mut g = IndicatorGraph::new(8);
    compile("IF SMA(close, 14.7) > 1 THEN BUY", &mut g).unwrap();
    assert_eq!(g.spec_of(IndicatorId(1)), Some(IndicatorSpec::Sma { field: Field::Close, period: 14 }));
}

fn err(dsl: &str) -> StrategyError {
    let mut g = IndicatorGraph::new(8);
    let e = compile(dsl, &mut g).unwrap_err();
    assert_eq!(g.len(), 0);
    e
}

fn line_err(line: usize, reason: RuleError) -> StrategyError {
    StrategyError::Parse { line, reason }
}

#[test]
fn line_errors() {
    assert_eq!(err(""), StrategyError::Empty);
    assert_eq!(err("# only\n\n"), StrategyError::Empty);
    assert_eq!(err("RSI(3) < 30 THEN BUY"), line_err(1, RuleError::ExpectedIf));
    assert_eq!(err("IF RSI(3) < 30"), line_err(1, RuleError::MissingThen));
    assert_eq!(err("IF RSI(3) < 30 THEN JUMP"), line_err(1, RuleError::InvalidAction));
    assert_eq!(err("IF RSI(3) < 30 THEN BUY\n\nIF X"), line_err(3, RuleError::MissingThen));
    assert_eq!(
        err("IF THEN BUY"),
        line_err(1, RuleError::Condition(ParseError::ExpectedIndicatorName))
    );
}

#[test]
fn condition_errors() {
    let c = |e| line_err(1, RuleError::Condition(e));
    assert_eq!(err("IF FOO(3) < 1 THEN BUY"), c(ParseError::UnsupportedIndicator));
    assert_eq!(err("IF RSI(3) ! 30 THEN BUY"), c(ParseError::UnexpectedChar));
    assert_eq!(err("IF RSI(3) < 1.2.3 THEN BUY"), c(ParseError::InvalidNumber));
    assert_eq!(err("IF RSI(3) < 30 30 THEN BUY"), c(ParseError::TrailingTokens));
    assert_eq!(err("IF (RSI(3) < 30 THEN BUY"), c(ParseError::MissingCloseParen));
    assert_eq!(err("IF RSI 3 < 30 THEN BUY"), c(ParseError::ExpectedOpenParen));
    assert_eq!(err("IF RSI(3 < 30 THEN BUY"), c(ParseError::MissingArgsCloseParen));
    assert_eq!(err("IF RSI(3) 30 THEN BUY"), c(ParseError::MissingComparison));
    assert_eq!(err("IF RSI(3) < close THEN BUY"), c(ParseError::ExpectedNumber));
    assert_eq!(err("IF RSI(3, len=2) < 1 THEN BUY"), c(ParseError::UnknownArgument));
    assert_eq!(err("IF SMA(close, 3, 4) < 1 THEN BUY"), c(ParseError::TooManyArguments));
    assert_eq!(err("IF SMA(close) < 1 THEN BUY"), c(ParseError::MissingPeriod));
    assert_eq!(err("IF SMA(period=3 4) < 1 THEN BUY"), c(ParseError::ExpectedSingleNumber));
    assert_eq!(err("IF SMA(x, 3) < 1 THEN BUY"), c(ParseError::UnknownField));
    assert_eq!(err("IF SMA(close, x) < 1 THEN BUY"), c(ParseError::InvalidInteger));
    assert_eq!(err("IF SMA(field=3, 2) < 1 THEN BUY"), c(ParseError::FieldNotIdentifier));
    assert_eq!(err("IF SMA(close, period=abc) < 1 THEN BUY"), c(ParseError::InvalidInteger));
    assert_eq!(err("IF SMA(close, period=close) < 1 THEN BUY"), c(ParseError::InvalidInteger));
}

#[test]
fn resolution_errors() {
    assert_eq!(err("IF SMA(close@4h, 3) < 1 THEN BUY"), line_err(1, RuleError::SuffixNotAllowed));
    assert_eq!(err("IF RSI(open, 3) < 1 THEN BUY"), line_err(1, RuleError::RsiCloseOnly));
}

#[test]
fn rejected_text_adds_nothing() {
    let mut g = IndicatorGraph::new(8);
    let e = compile("IF RSI(3) < 30 THEN BUY\nIF EMA(close, 9) > 1 THEN SELL\nbad", &mut g).unwrap_err();
    assert_eq!(e, line_err(3, RuleError::ExpectedIf));
    assert_eq!(g.len(), 0);
}

#[test]
fn multi_resolves_suffixes() {
    let periods = vec![15 * 60_000i64, 4 * 3_600_000];
    let mut graphs = vec![IndicatorGraph::new(8), IndicatorGraph::new(8)];
    let cs = compile_multi_strategy(
        StrategyId(1),
        "m".to_string(),
        "IF SMA(close@4h, period=1) > 100 AND RSI(3) < 30 THEN BUY",
        &periods,
        &mut graphs,
    )
    .unwrap();
    assert_eq!(cs.scope, StrategyScope::Multi);
    assert_eq!(
        cs.comparison(0).unwrap().operand,
        MultiIndicatorRef { period_ms: 4 * 3_600_000, id: IndicatorId(1) }
    );
    assert_eq!(
        cs.comparison(1).unwrap().operand,
        MultiIndicatorRef { period_ms: 15 * 60_000, id: IndicatorId(1) }
    );
    assert_eq!(graphs[1].spec_of(IndicatorId(1)), Some(IndicatorSpec::Sma { field: Field::Close, period: 1 }));
    assert_eq!(graphs[0].spec_of(IndicatorId(1)), Some(IndicatorSpec::Rsi { period: 3 }));
}

#[test]
fn multi_errors() {
    let periods = vec![15 * 60_000i64];
    let mut graphs = vec![IndicatorGraph::new(8)];
    let mut run = |dsl: &str| {
        compile_multi_strategy(StrategyId(1), "m".to_string(), dsl, &periods, &mut graphs).unwrap_err()
    };
    assert_eq!(run("IF SMA(close@1h, 1) > 1 THEN BUY"), line_err(1, RuleError::UnknownPeriod));
    assert_eq!(
        run("IF SMA(close@xx, 1) > 1 THEN BUY"),
        line_err(1, RuleError::BadSuffix(PeriodError::MissingNumber))
    );
    let mut none: Vec<IndicatorGraph> = Vec::new();
    let e = compile_multi_strategy(StrategyId(1), "m".to_string(), "IF RSI(3) < 1 THEN BUY", &Vec::new(), &mut none)
        .unwrap_err();
    assert_eq!(e, StrategyError::NoPeriods);
}
