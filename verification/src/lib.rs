//! Intraday jump detection and trade sizing.
//!
//! The pipeline derives a log-return series per instrument from minute bars,
//! applies a nonparametric jump test (realized variance against bipower
//! variation, normalized by tripower quarticity), ranks instruments whose most
//! recent return is a freshly detected jump, and sizes dollar-weighted trade
//! instructions from the ranked signals.
//!
//! All statistics are computed in fixed-point integer arithmetic: log returns
//! are scaled by 1e9, variance-like quantities by 1e12, and z-scores by 1e6.
pub mod aggregates;
pub mod arith;
pub mod data;
pub mod jumps;
pub mod math;
pub mod positions;
pub mod settings;
pub mod signals;
