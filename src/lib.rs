//! Per-language change statistics: merging classified file records into one
//! aggregate, filtering it by category and name, and bucketing a metric's long
//! tail into a single "Others" bar.
use vstd::prelude::*;

pub mod stats;
pub mod language;
pub mod histogram;
pub mod aggregate;
pub mod filter;
pub mod chart;
pub mod config;
pub mod materialize;

verus! {

} // verus!
