//! The record types that the scoring and reporting functions exchange.
//!
//! All quantities are exact integers: risk scores are held in tenths
//! (severity times a recency weight in tenths) and externally supplied
//! averages in hundredths, so that every computation is deterministic.

use vstd::prelude::*;

use crate::date::Date;

verus! {

/// One observed concern event for a scholar, immutable once constructed.
#[derive(Clone, Debug)]
pub struct SignalRecord {
    /// Opaque unique person identifier, held as its 128-bit value.
    pub scholar_id: u128,
    pub scholar_name: String,
    pub scholar_email: String,
    pub cohort: String,
    /// Free-form signal category, e.g. "attendance".
    pub signal_type: String,
    pub severity: i32,
    pub occurred_at: Date,
    pub note: String,
}

impl SignalRecord {
    pub open spec fn valid(self) -> bool {
        self.occurred_at.valid()
    }

    /// A copy equal to `self`, usable in verified code where a derived
    /// `Clone` would say nothing about the result.
    pub fn duplicate(&self) -> (r: SignalRecord)
        ensures
            r == *self,
    {
        SignalRecord {
            scholar_id: self.scholar_id,
            scholar_name: self.scholar_name.clone(),
            scholar_email: self.scholar_email.clone(),
            cohort: self.cohort.clone(),
            signal_type: self.signal_type.clone(),
            severity: self.severity,
            occurred_at: self.occurred_at,
            note: self.note.clone(),
        }
    }
}

/// Aggregated per-person risk, one entry per distinct scholar.
#[derive(Clone, Debug)]
pub struct ScholarScore {
    pub scholar_name: String,
    pub scholar_email: String,
    pub cohort: String,
    /// Accumulated risk in tenths: the sum over the scholar's retained
    /// signals of severity times the recency weight in tenths.
    pub score_tenths: i128,
    /// Number of signals that contributed to the score.
    pub signal_count: usize,
}

/// Aggregated per-category counts; the average severity of the group is
/// `severity_sum / count`.
#[derive(Clone, Debug)]
pub struct SignalTypeSummary {
    pub signal_type: String,
    pub count: usize,
    pub severity_sum: i128,
}

/// Externally computed weekly statistics; rendered in the order supplied,
/// never computed here.
#[derive(Clone, Debug)]
pub struct SignalTrend {
    pub week_start: Date,
    pub signal_count: i64,
    /// Average severity for the week, in hundredths.
    pub avg_severity_hundredths: i64,
    pub scholar_count: i64,
}

impl SignalTrend {
    pub open spec fn valid(self) -> bool {
        self.week_start.valid()
    }
}

} // verus!
