use chrono::Datelike;
use chrono::Duration;
use chrono::Utc;

use cohort_early_warning::Date;

fn to_date(nd: chrono::NaiveDate) -> Date {
    Date { year: nd.year() as u16, month: nd.month() as u8, day: nd.day() as u8 }
}

#[test]
fn day_numbers_agree_with_calendar_differences() {
    let a = chrono::NaiveDate::from_ymd_opt(2026, 2, 2).unwrap();
    let b = chrono::NaiveDate::from_ymd_opt(2024, 2, 29).unwrap();
    let diff = (a - b).num_days();
    assert_eq!(to_date(a).day_number() - to_date(b).day_number(), diff);
}

#[test]
fn day_number_of_epoch_is_zero() {
    let d = Date { year: 0, month: 1, day: 1 };
    assert_eq!(d.day_number(), 0);
}

#[test]
fn minus_days_crosses_month_and_year_boundaries() {
    let d = Date { year: 2026, month: 1, day: 1 };
    assert_eq!(d.minus_days(1), Date { year: 2025, month: 12, day: 31 });
    let m = Date { year: 2024, month: 3, day: 1 };
    assert_eq!(m.minus_days(1), Date { year: 2024, month: 2, day: 29 });
    let n = Date { year: 2023, month: 3, day: 1 };
    assert_eq!(n.minus_days(1), Date { year: 2023, month: 2, day: 28 });
}

#[test]
fn minus_days_agrees_with_calendar_arithmetic() {
    let today = Utc::now().date_naive();
    for days in [0i64, 1, 28, 31, 365, 366, 1000] {
        let expected = to_date(today - Duration::days(days));
        assert_eq!(to_date(today).minus_days(days), expected);
    }
}

#[test]
fn iso_rendering_pads_with_zeros() {
    let mut s = String::new();
    Date { year: 2026, month: 2, day: 2 }.push_iso(&mut s);
    assert_eq!(s, "2026-02-02");
    let mut t = String::new();
    Date { year: 476, month: 12, day: 25 }.push_iso(&mut t);
    assert_eq!(t, "0476-12-25");
}
