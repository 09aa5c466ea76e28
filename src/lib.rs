//! Order-book state and trade statistics for a streaming exchange feed.
//!
//! Prices and volumes are fixed-point decimals with eight fractional digits
//! (see [`decimal`]); the JSON reader is the `json` crate, everything that
//! interprets what it reads is verified here.
pub mod decimal;
pub mod error;
pub mod json;
pub mod clock;
pub mod timeseries;
pub mod book;
pub mod messages;
pub mod tradestats;
pub mod stats;
pub mod trade;
pub mod actors;
pub mod model;
