//! Z-score normalisation of metric time series and their aggregation into
//! per-industry sentiment scores, with machine-checked contracts.
//!
//! A run has two phases. The normalize phase turns each metric's raw series
//! into z-scores and upserts them as processed factors. The aggregate phase
//! groups the normalised factors of each industry's metrics by date and
//! upserts one sentiment per date: the mean of the date's factors and a
//! breakdown by metric name.
//!
//! * [`decimal`]: the exact decimal numbers that all values are.
//! * [`statistics`]: sum and mean of decimals.
//! * [`scaling`]: a series scaled into a small range of integers.
//! * [`zscore`]: the z-scores of a series of integers.
//! * [`model`]: the records that are read and written.
//! * [`normalizer`]: the z-scores of one series.
//! * [`sentiment`]: the sentiments of one industry.
//! * [`pipeline`]: the order of the requests of a run, as a state machine.
//! * [`keyed`]: what an upsert does to a table.
//! * [`store`]: an in-memory store with the operations that a run requests.
//! * [`driver`]: a whole run against the in-memory store, and what it
//!   leaves there.

pub mod decimal;
pub mod driver;
pub mod keyed;
pub mod model;
pub mod normalizer;
pub mod pipeline;
pub mod scaling;
pub mod sentiment;
pub mod statistics;
pub mod store;
pub mod zscore;
