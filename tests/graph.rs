use hquant::graph::IndicatorGraph;
use hquant::types::{Field, IndicatorId, IndicatorSpec, IndicatorValueKind};

#[test]
fn equal_specs_share_one_node() {
    let mut g = IndicatorGraph::new(16);
    let a = g.add(IndicatorSpec::Rsi { period: 14 });
    let b = g.add(IndicatorSpec::Rsi { period: 14 });
    assert_eq!(a, b);
    assert_eq!(g.len(), 1);
    let c = g.add(IndicatorSpec::Rsi { period: 7 });
    assert_ne!(a, c);
    assert_eq!(g.len(), 2);
}

#[test]
fn boll_reuses_its_dependencies() {
    let mut g = IndicatorGraph::new(16);
    let k = 2.0f64.to_bits();
    let boll = g.add(IndicatorSpec::boll(20, k));
    assert_eq!(boll, IndicatorId(3));
    assert_eq!(g.len(), 3);
    let sma = g.add(IndicatorSpec::Sma { field: Field::Close, period: 20 });
    let std = g.add(IndicatorSpec::StdDev { field: Field::Close, period: 20 });
    assert_eq!((sma, std), (IndicatorId(1), IndicatorId(2)));
    assert_eq!(g.len(), 3);
    assert_eq!(g.add(IndicatorSpec::boll(20, k)), boll);
    assert_eq!(g.deps_of(boll), Some(vec![sma, std]));
    assert_eq!(g.deps_of(IndicatorId(9)), None);
    assert_eq!(g.spec_of(boll).map(|s| s.output_kind()), Some(IndicatorValueKind::Triple));
}

#[test]
fn macd_adds_two_emas_first() {
    let mut g = IndicatorGraph::new(16);
    g.add(IndicatorSpec::Ema { field: Field::Close, period: 12 });
    let m = g.add(IndicatorSpec::Macd { fast: 12, slow: 26, signal: 9 });
    assert_eq!(m, IndicatorId(3));
    assert_eq!(g.spec_of(IndicatorId(2)), Some(IndicatorSpec::Ema { field: Field::Close, period: 26 }));
    assert_eq!(g.deps_of(m), Some(vec![IndicatorId(1), IndicatorId(2)]));
    assert_eq!(g.order(), vec![IndicatorId(1), IndicatorId(2), IndicatorId(3)]);
    assert_eq!(g.find(&IndicatorSpec::Rsi { period: 3 }), None);
    assert_eq!(g.spec_of(IndicatorId(0)), None);
    assert_eq!(g.capacity(), 16);
}
