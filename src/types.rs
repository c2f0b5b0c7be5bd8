//! Plain values shared by the engine's parts.
use vstd::prelude::*;

verus! {

/// A numeric field of a bar.
#[derive(Debug, Clone, Copy, PartialEq, Eq, Structural, Hash)]
pub enum Field {
    Open,
    High,
    Low,
    Close,
    Volume,
    BuyVolume,
}

/// What a rule asks for when it fires.
#[derive(Debug, Clone, Copy, PartialEq, Eq, Structural, Hash)]
pub enum Action {
    Buy,
    Sell,
    Hold,
}

impl Action {
    /// The wire code: Buy=1, Sell=2, Hold=3.
    pub fn code(&self) -> (r: u8)
        ensures
            r == action_code(*self),
    {
        match self {
            Action::Buy => 1,
            Action::Sell => 2,
            Action::Hold => 3,
        }
    }
}

pub open spec fn action_code(a: Action) -> u8 {
    match a {
        Action::Buy => 1,
        Action::Sell => 2,
        Action::Hold => 3,
    }
}

/// A fired rule: which strategy, what action, at which bar time.
#[derive(Debug, Clone, Copy, PartialEq, Eq, Structural)]
pub struct Signal {
    pub strategy_id: u32,
    pub action: Action,
    pub timestamp: i64,
}

/// Dense identifier of a graph node; the first node is 1.
#[derive(Debug, Clone, Copy, PartialEq, Eq, Structural, Hash)]
pub struct IndicatorId(pub u32);

/// Structural key of an indicator; equal keys denote the same graph node.
#[derive(Debug, Clone, Copy, PartialEq, Eq, Structural, Hash)]
pub enum IndicatorSpec {
    Sma { field: Field, period: usize },
    Ema { field: Field, period: usize },
    StdDev { field: Field, period: usize },
    Rsi { period: usize },
    /// Bands `mid ± k·σ` over SMA and STDDEV of the close; `k_bits` holds the bits of `k`.
    Boll { period: usize, k_bits: u64 },
    Macd { fast: usize, slow: usize, signal: usize },
}

/// Whether a node outputs one value per bar or three.
#[derive(Debug, Clone, Copy, PartialEq, Eq, Structural, Hash)]
pub enum IndicatorValueKind {
    Scalar,
    Triple,
}

pub open spec fn kind_of(s: IndicatorSpec) -> IndicatorValueKind {
    match s {
        IndicatorSpec::Boll { .. } | IndicatorSpec::Macd { .. } => IndicatorValueKind::Triple,
        _ => IndicatorValueKind::Scalar,
    }
}

impl IndicatorSpec {
    /// Bollinger bands with multiplier given by its bit pattern (`f64::to_bits`).
    pub fn boll(period: usize, k_bits: u64) -> (r: Self)
        ensures
            r == (IndicatorSpec::Boll { period, k_bits }),
    {
        IndicatorSpec::Boll { period, k_bits }
    }

    pub fn output_kind(&self) -> (r: IndicatorValueKind)
        ensures
            r == kind_of(*self),
    {
        match self {
            IndicatorSpec::Boll { .. } | IndicatorSpec::Macd { .. } => IndicatorValueKind::Triple,
            _ => IndicatorValueKind::Scalar,
        }
    }
}

/// Identifier of a compiled strategy within its engine.
#[derive(Debug, Clone, Copy, PartialEq, Eq, Structural, Hash)]
pub struct StrategyId(pub u32);

/// An indicator of one timeframe's engine, as cross-timeframe rules refer to it.
#[derive(Debug, Clone, Copy, PartialEq, Eq, Structural, Hash)]
pub struct MultiIndicatorRef {
    pub period_ms: i64,
    pub id: IndicatorId,
}

#[derive(Debug, Clone, Copy, PartialEq, Eq, Structural, Hash)]
pub enum StrategyScope {
    /// Rules over one engine's indicators.
    Single,
    /// Rules over indicators of several timeframes.
    Multi,
}

/// A timeframe key in milliseconds.
#[derive(Debug, Clone, Copy, PartialEq, Eq, Structural, Hash)]
pub struct PeriodKey(pub i64);

/// The two kinds of candle event.
#[derive(Debug, Clone, Copy, PartialEq, Eq, Structural, Hash)]
pub enum AggregatorEventKind {
    KlineUpdated,
    KlineClosed,
}

/// Position side of the futures account.
#[derive(Debug, Clone, Copy, PartialEq, Eq, Structural, Hash)]
pub enum Side {
    Long,
    Short,
}

} // verus!
