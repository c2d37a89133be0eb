//! Early-warning signal scoring and reporting for a mentoring cohort.
//!
//! The library turns a flat collection of time-stamped signal observations
//! into a per-person risk ranking using time-decayed severity, a breakdown
//! of signal categories, and a rendered multi-section text report.
//! Scores are held as exact integer tenths so that every computation is
//! deterministic and fully specified.

pub mod date;
pub mod digits;
pub mod models;
pub mod report;
pub mod risk;
pub mod summary;

pub use date::Date;
pub use models::ScholarScore;
pub use models::SignalRecord;
pub use models::SignalTrend;
pub use models::SignalTypeSummary;
pub use report::build_report;
pub use risk::cutoff_date;
pub use risk::recency_weight;
pub use risk::score_signals;
pub use summary::summarize_by_type;
