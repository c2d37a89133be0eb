use chrono::Datelike;
use chrono::Duration;
use chrono::Utc;

use cohort_early_warning::cutoff_date;
use cohort_early_warning::recency_weight;
use cohort_early_warning::score_signals;
use cohort_early_warning::Date;
use cohort_early_warning::SignalRecord;

fn to_date(nd: chrono::NaiveDate) -> Date {
    Date { year: nd.year() as u16, month: nd.month() as u8, day: nd.day() as u8 }
}

fn sample_signal(today: chrono::NaiveDate, days_ago: i64, severity: i32) -> SignalRecord {
    let occurred_at = to_date(today - Duration::days(days_ago));
    SignalRecord {
        scholar_id: uuid::Uuid::new_v4().as_u128(),
        scholar_name: "Avery Lee".to_string(),
        scholar_email: "avery@example.com".to_string(),
        cohort: "2026".to_string(),
        signal_type: "attendance".to_string(),
        severity,
        occurred_at,
        note: "missed session".to_string(),
    }
}

#[test]
fn weights_follow_expected_tiers() {
    assert_eq!(recency_weight(2), 10);
    assert_eq!(recency_weight(15), 7);
    assert_eq!(recency_weight(40), 4);
    assert_eq!(recency_weight(90), 2);
}

#[test]
fn weights_cover_tier_boundaries() {
    assert_eq!(recency_weight(0), 10);
    assert_eq!(recency_weight(7), 10);
    assert_eq!(recency_weight(8), 7);
    assert_eq!(recency_weight(30), 7);
    assert_eq!(recency_weight(31), 4);
    assert_eq!(recency_weight(60), 4);
    assert_eq!(recency_weight(61), 2);
    assert_eq!(recency_weight(1000), 2);
}

#[test]
fn negative_age_takes_freshest_tier() {
    assert_eq!(recency_weight(-1), 10);
    assert_eq!(recency_weight(-365), 10);
}

#[test]
fn scores_accumulate_by_scholar() {
    let today = Utc::now().date_naive();
    let scholar_id = uuid::Uuid::new_v4().as_u128();
    let signals = vec![
        SignalRecord {
            scholar_id,
            scholar_name: "Avery Lee".to_string(),
            scholar_email: "avery@example.com".to_string(),
            cohort: "2026".to_string(),
            signal_type: "attendance".to_string(),
            severity: 3,
            occurred_at: to_date(today - Duration::days(3)),
            note: "missed session".to_string(),
        },
        SignalRecord {
            scholar_id,
            scholar_name: "Avery Lee".to_string(),
            scholar_email: "avery@example.com".to_string(),
            cohort: "2026".to_string(),
            signal_type: "engagement".to_string(),
            severity: 2,
            occurred_at: to_date(today - Duration::days(12)),
            note: "no response".to_string(),
        },
    ];

    let scores = score_signals(&signals, 30, to_date(today));
    assert_eq!(scores.len(), 1);
    let score = &scores[0];
    let expected = 3.0 * 1.0 + 2.0 * 0.7;
    assert!((score.score_tenths as f64 / 10.0 - expected).abs() < 0.001);
    assert_eq!(score.signal_count, 2);
}

#[test]
fn cutoff_date_respects_since_days() {
    let today = Utc::now().date_naive();
    let cutoff = cutoff_date(14, to_date(today));
    let expected = to_date(today - Duration::days(14));
    assert_eq!(cutoff, expected);
}

#[test]
fn cutoff_window_is_clamped_to_one_day() {
    let today = Utc::now().date_naive();
    let one_day = to_date(today - Duration::days(1));
    assert_eq!(cutoff_date(0, to_date(today)), one_day);
    assert_eq!(cutoff_date(-5, to_date(today)), one_day);
    assert_eq!(cutoff_date(1, to_date(today)), one_day);
}

#[test]
fn ignores_signals_outside_window() {
    let today = Utc::now().date_naive();
    let signals = vec![sample_signal(today, 2, 2), sample_signal(today, 90, 5)];
    let scores = score_signals(&signals, 30, to_date(today));
    assert_eq!(scores.len(), 1);
    assert_eq!(scores[0].signal_count, 1);
}

#[test]
fn signal_at_cutoff_included_older_excluded() {
    let today = Utc::now().date_naive();
    let signals = vec![sample_signal(today, 30, 2), sample_signal(today, 31, 5)];
    let scores = score_signals(&signals, 30, to_date(today));
    assert_eq!(scores.len(), 1);
    assert_eq!(scores[0].signal_count, 1);
    // the retained signal is the one at the cutoff, weighted at 0.7
    assert_eq!(scores[0].score_tenths, 2 * 7);
}

#[test]
fn single_old_signal_gives_empty_result() {
    let today = Utc::now().date_naive();
    let signals = vec![sample_signal(today, 90, 4)];
    let scores = score_signals(&signals, 30, to_date(today));
    assert_eq!(scores.len(), 0);
}

#[test]
fn empty_signals_give_empty_result() {
    let today = Utc::now().date_naive();
    let signals: Vec<SignalRecord> = Vec::new();
    let scores = score_signals(&signals, 30, to_date(today));
    assert_eq!(scores.len(), 0);
}

#[test]
fn counts_sum_to_retained_signals() {
    let today = Utc::now().date_naive();
    let signals = vec![
        sample_signal(today, 1, 1),
        sample_signal(today, 2, 2),
        sample_signal(today, 10, 3),
        sample_signal(today, 90, 4),
    ];
    let scores = score_signals(&signals, 30, to_date(today));
    let total: usize = scores.iter().map(|s| s.signal_count).sum();
    assert_eq!(total, 3);
}

#[test]
fn scoring_twice_gives_identical_results() {
    let today = Utc::now().date_naive();
    let signals = vec![
        sample_signal(today, 1, 1),
        sample_signal(today, 12, 2),
        sample_signal(today, 45, 3),
    ];
    let a = score_signals(&signals, 60, to_date(today));
    let b = score_signals(&signals, 60, to_date(today));
    assert_eq!(a.len(), b.len());
    for (x, y) in a.iter().zip(b.iter()) {
        assert_eq!(x.scholar_name, y.scholar_name);
        assert_eq!(x.scholar_email, y.scholar_email);
        assert_eq!(x.cohort, y.cohort);
        assert_eq!(x.score_tenths, y.score_tenths);
        assert_eq!(x.signal_count, y.signal_count);
    }
}

#[test]
fn scores_are_sorted_descending() {
    let today = Utc::now().date_naive();
    let mut low = sample_signal(today, 2, 1);
    low.scholar_id = 1;
    low.scholar_email = "low@example.com".to_string();
    let mut high = sample_signal(today, 2, 9);
    high.scholar_id = 2;
    high.scholar_email = "high@example.com".to_string();
    let signals = vec![low, high];
    let scores = score_signals(&signals, 30, to_date(today));
    assert_eq!(scores.len(), 2);
    assert!(scores[0].score_tenths >= scores[1].score_tenths);
    assert_eq!(scores[0].scholar_email, "high@example.com");
}

#[test]
fn future_signal_takes_freshest_tier() {
    let today = Utc::now().date_naive();
    let signals = vec![sample_signal(today, -3, 4)];
    let scores = score_signals(&signals, 30, to_date(today));
    assert_eq!(scores.len(), 1);
    assert_eq!(scores[0].score_tenths, 4 * 10);
}
