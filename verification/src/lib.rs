//! What the agent has cost, and at which prices.
//!
//! [`model_rate_table`] says what each model charges, [`price_source`] when its
//! public part is fetched, [`usage_summary`] what a history of threads comes to
//! at those rates, and [`usage_dashboard`] what the reader sees of it. Dollar
//! amounts are the machine's own binary64 numbers, computed in [`binary64`].
//! [`laws`] holds what is true of all of it together.
pub mod binary64;
pub mod calendar;
pub mod decimal;
pub mod group_index;
pub mod json;
pub mod laws;
pub mod model_rate_table;
pub mod price_source;
pub mod rate;
pub mod rate_map;
pub mod rounding;
pub mod text;
pub mod usage_dashboard;
pub mod usage_summary;
