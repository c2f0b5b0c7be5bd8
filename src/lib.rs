//! Streaming market-data indicators and a textual trading-rule language.
//!
//! The verified core:
//! - `circular`: fixed-capacity ring-buffer columns, and `kline_buffer`: seven of them
//!   forming one bar history;
//! - `graph`: the deduplicated indicator dependency graph;
//! - `dsl` and `strategy`: the rule language, from text to compiled strategies bound to
//!   graph nodes, and their top-down evaluation;
//! - `period`, `timeframe` and `aggregator`: candle periods and multi-timeframe bucketing;
//! - `multi`: routing rules of the multi-timeframe runtime;
//! - `text` and `types`: shared character classes and plain values.

pub mod aggregator;
pub mod circular;
pub mod dsl;
pub mod graph;
pub mod kline_buffer;
pub mod multi;
pub mod period;
pub mod strategy;
pub mod text;
pub mod timeframe;
pub mod types;
