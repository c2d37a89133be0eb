use chrono::Datelike;
use chrono::Duration;
use chrono::Utc;

use cohort_early_warning::build_report;
use cohort_early_warning::summarize_by_type;
use cohort_early_warning::Date;
use cohort_early_warning::SignalRecord;
use cohort_early_warning::SignalTrend;

fn to_date(nd: chrono::NaiveDate) -> Date {
    Date { year: nd.year() as u16, month: nd.month() as u8, day: nd.day() as u8 }
}

fn sample_signal(today: chrono::NaiveDate, days_ago: i64, severity: i32) -> SignalRecord {
    let occurred_at = to_date(today - Duration::days(days_ago));
    SignalRecord {
        scholar_id: uuid::Uuid::new_v4().as_u128(),
        scholar_name: "Avery Lee".to_string(),
        scholar_email: "avery@example.com".to_string(),
        cohort: "2026".to_string(),
        signal_type: "attendance".to_string(),
        severity,
        occurred_at,
        note: "missed session".to_string(),
    }
}

#[test]
fn summarizes_signal_types() {
    let today = Utc::now().date_naive();
    let signals = vec![sample_signal(today, 2, 3), sample_signal(today, 1, 1)];
    let summaries = summarize_by_type(&signals);
    assert_eq!(summaries.len(), 1);
    assert_eq!(summaries[0].count, 2);
    assert!((summaries[0].severity_sum as f64 / summaries[0].count as f64 - 2.0).abs() < 0.01);
}

#[test]
fn summary_counts_sum_to_input_length() {
    let today = Utc::now().date_naive();
    let mut signals = vec![
        sample_signal(today, 2, 3),
        sample_signal(today, 1, 1),
        sample_signal(today, 4, 2),
    ];
    signals[2].signal_type = "engagement".to_string();
    let summaries = summarize_by_type(&signals);
    assert_eq!(summaries.len(), 2);
    let total: usize = summaries.iter().map(|s| s.count).sum();
    assert_eq!(total, signals.len());
    // ordered by count descending
    assert!(summaries[0].count >= summaries[1].count);
    assert_eq!(summaries[0].signal_type, "attendance");
    assert_eq!(summaries[0].severity_sum, 4);
    assert_eq!(summaries[1].signal_type, "engagement");
    assert_eq!(summaries[1].severity_sum, 2);
}

#[test]
fn summarize_empty_gives_no_groups() {
    let signals: Vec<SignalRecord> = Vec::new();
    let summaries = summarize_by_type(&signals);
    assert_eq!(summaries.len(), 0);
}

#[test]
fn report_includes_weekly_trend_section() {
    let today = Utc::now().date_naive();
    let signals = vec![sample_signal(today, 2, 3)];
    let trends = vec![SignalTrend {
        week_start: Date { year: 2026, month: 2, day: 2 },
        signal_count: 2,
        avg_severity_hundredths: 250,
        scholar_count: 1,
    }];
    let report = build_report(
        Some("2026"),
        30,
        Date { year: 2026, month: 1, day: 1 },
        &signals,
        &trends,
        to_date(today),
    );
    assert!(report.contains("## Weekly Signal Trend"));
    assert!(report.contains("Week of 2026-02-02"));
}

#[test]
fn report_renders_exact_lines() {
    let today = to_date(chrono::NaiveDate::from_ymd_opt(2026, 2, 20).unwrap());
    let scholar_id = 7u128;
    let occurred_recent = Date { year: 2026, month: 2, day: 17 };
    let occurred_older = Date { year: 2026, month: 2, day: 8 };
    let signals = vec![
        SignalRecord {
            scholar_id,
            scholar_name: "Avery Lee".to_string(),
            scholar_email: "avery@example.com".to_string(),
            cohort: "2026".to_string(),
            signal_type: "attendance".to_string(),
            severity: 3,
            occurred_at: occurred_recent,
            note: "missed session".to_string(),
        },
        SignalRecord {
            scholar_id,
            scholar_name: "Avery Lee".to_string(),
            scholar_email: "avery@example.com".to_string(),
            cohort: "2026".to_string(),
            signal_type: "engagement".to_string(),
            severity: 2,
            occurred_at: occurred_older,
            note: "no response".to_string(),
        },
    ];
    let trends = vec![SignalTrend {
        week_start: Date { year: 2026, month: 2, day: 2 },
        signal_count: 2,
        avg_severity_hundredths: 250,
        scholar_count: 1,
    }];
    let cutoff = Date { year: 2026, month: 1, day: 21 };
    let report = build_report(Some("2026"), 30, cutoff, &signals, &trends, today);
    assert!(report.starts_with("# Cohort Early Warning Report\n"));
    assert!(report.contains("Generated for 2026 (signals since 2026-01-21)"));
    // severities 3 and 2, 3 and 12 days old: 3 * 1.0 + 2 * 0.7 = 4.4
    assert!(report.contains("- Avery Lee (avery@example.com, 2026) score 4.40 across 2 signals"));
    assert!(report.contains("- attendance: 1 signals (avg severity 3.0)"));
    assert!(report.contains("- engagement: 1 signals (avg severity 2.0)"));
    assert!(report.contains("- Avery Lee (attendance) on 2026-02-17: missed session"));
    assert!(report.contains("- Week of 2026-02-02: 2 signals across 1 scholars (avg severity 2.50)"));
}

#[test]
fn report_on_empty_signals_has_every_section() {
    let signals: Vec<SignalRecord> = Vec::new();
    let trends = vec![SignalTrend {
        week_start: Date { year: 2026, month: 2, day: 2 },
        signal_count: 2,
        avg_severity_hundredths: 250,
        scholar_count: 1,
    }];
    let today = Date { year: 2026, month: 2, day: 20 };
    let cutoff = Date { year: 2026, month: 1, day: 21 };
    let report = build_report(None, 30, cutoff, &signals, &trends, today);
    assert!(report.contains("Generated for all cohorts"));
    assert!(report.contains("## Signal Mix\nNo signals recorded for this window.\n"));
    assert!(report.contains("## Highest Risk Scholars\nNo scholars with signals in this window.\n"));
    assert!(report.contains("## Recent Signal Notes\nNo signals recorded for this window.\n"));
    assert!(report.contains("## Weekly Signal Trend\n- Week of 2026-02-02"));
}

#[test]
fn report_without_trends_says_so() {
    let signals: Vec<SignalRecord> = Vec::new();
    let trends: Vec<SignalTrend> = Vec::new();
    let today = Date { year: 2026, month: 2, day: 20 };
    let cutoff = Date { year: 2026, month: 1, day: 21 };
    let report = build_report(None, 30, cutoff, &signals, &trends, today);
    assert!(report.contains("## Weekly Signal Trend\nNo weekly trend data available for this window.\n"));
}

#[test]
fn report_is_deterministic() {
    let today = Utc::now().date_naive();
    let signals = vec![
        sample_signal(today, 2, 3),
        sample_signal(today, 12, 2),
        sample_signal(today, 40, 5),
    ];
    let trends = vec![SignalTrend {
        week_start: Date { year: 2026, month: 2, day: 2 },
        signal_count: 3,
        avg_severity_hundredths: 333,
        scholar_count: 2,
    }];
    let cutoff = to_date(today - Duration::days(60));
    let a = build_report(Some("2026"), 60, cutoff, &signals, &trends, to_date(today));
    let b = build_report(Some("2026"), 60, cutoff, &signals, &trends, to_date(today));
    assert_eq!(a, b);
}

#[test]
fn recent_notes_keep_only_five_most_recent() {
    let today = Utc::now().date_naive();
    let mut signals = Vec::new();
    for d in 1..=7i64 {
        let mut s = sample_signal(today, d, 1);
        s.note = format!("note-{}", d);
        signals.push(s);
    }
    let trends: Vec<SignalTrend> = Vec::new();
    let cutoff = to_date(today - Duration::days(30));
    let report = build_report(None, 30, cutoff, &signals, &trends, to_date(today));
    assert!(report.contains("note-1"));
    assert!(report.contains("note-5"));
    assert!(!report.contains("note-6"));
    assert!(!report.contains("note-7"));
}
