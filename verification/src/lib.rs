//! Per-bin statistics of press-count curves read from a table.
//!
//! A table holds one trial per row; some of its columns hold a time series of
//! press counts. A curve is built from one such column: every trial's series
//! is cut to a common number of steps, folded into bins of a fixed width, and
//! each bin is summarised over the trials by its exact mean and by the exact
//! square of the standard error of that mean.

pub mod aggregate;
pub mod curve;
pub mod failure;
pub mod image;
pub mod order;
pub mod request;
pub mod stats;
pub mod table;
