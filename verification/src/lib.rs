//! Reconstruction of round-trip forex trades from raw broker execution
//! records: format detection, row normalisation, position matching, trade
//! merging, business-day bucketing and summary aggregation.
//!
//! Prices are held as integers in hundred-thousandths of a price unit
//! (`150.00` is `15_000_000`) and position sizes as integers in
//! ten-thousandths of a lot (`1.0` lot is `10_000`), so every rule of the
//! domain is exact integer arithmetic.

pub mod busday;
pub mod calendar;
pub mod error;
pub mod import;
pub mod laws;
pub mod matching;
pub mod merge;
pub mod migration;
pub mod normalize;
pub mod num;
pub mod parse;
pub mod record;
pub mod store;
pub mod summary;
pub mod trade;
