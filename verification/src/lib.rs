//! A production calendar: each day of a year is classified as a working day,
//! a weekend day, a holiday, or a shortened pre-holiday working day, by
//! combining the default weekday rule with authoritative override records.

pub mod date;
pub mod day;
pub mod errors;
pub mod parser;
pub mod pc;
pub mod statistic;
pub mod text;
