//! Parsing and aggregation of monthly usage reports.
//!
//! A report is a flat text buffer of sections separated by a fixed
//! delimiter line. Each section carries a date line followed by counter
//! lines; sections parse into [`MonthlyStat`] records, which are then
//! merged by month key, preserving first-seen order.

pub mod aggregate;
pub mod monthly_stat;
pub mod series;
pub mod split;

pub use monthly_stat::MonthlyStat;
pub use monthly_stat::ParseError;
