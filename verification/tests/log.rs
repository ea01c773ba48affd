use dakoku::commands::log::{
    can_report, report_lines, running_report_line, select_entries, start_of_range, try_report_lines, week_start, Range,
    RangeError,
};
use dakoku::store::{Entry, Session};
use dakoku::time::{CivilDate, Moment};

fn at(year: i16, month: i8, day: i8, hour: i8, minute: i8) -> Moment {
    let zone = jiff::tz::TimeZone::fixed(jiff::tz::offset(9));
    let zoned = jiff::civil::date(year, month, day).at(hour, minute, 0, 0).to_zoned(zone).expect("a valid time");
    Moment {
        instant: zoned.timestamp().as_nanosecond(),
        date: CivilDate { year: zoned.year(), month: zoned.month(), day: zoned.day() },
        hour: zoned.hour(),
        minute: zoned.minute(),
        zone: zoned.time_zone().clone(),
    }
}

fn entry(path: &str, label: Option<&str>, note: Option<&str>, started_at: Moment, ended_at: Moment) -> Entry {
    Entry {
        path: path.to_string(),
        label: label.map(|s| s.to_string()),
        note: note.map(|s| s.to_string()),
        started_at,
        ended_at,
    }
}

fn date(year: i16, month: i8, day: i8) -> CivilDate {
    CivilDate { year, month, day }
}

/// The records of the week shown in the README, in the order they were written.
fn week() -> Vec<Entry> {
    vec![
        entry("~/ws/acme/api", Some("A社ZZ案件"), Some("設計"), at(2026, 8, 30, 9, 30), at(2026, 8, 30, 11, 45)),
        entry("~/ws/acme/api", Some("A社ZZ案件"), Some("CLI実装"), at(2026, 8, 30, 22, 16), at(2026, 8, 31, 0, 6)),
        entry("~/ws/playground", None, Some("調査"), at(2026, 8, 31, 0, 31), at(2026, 8, 31, 0, 51)),
        entry("~/ws/acme/api", Some("A社ZZ案件"), Some("レビュー対応"), at(2026, 8, 31, 0, 6), at(2026, 8, 31, 0, 46)),
    ]
}

fn report(entries: &Vec<Entry>) -> Vec<String> {
    assert!(can_report(entries));
    report_lines(entries)
}

#[test]
fn the_week_reads_as_in_the_readme() {
    let expected = vec![
        "2026-08-30 (日)",
        "  09:30 → 11:45  2h15m  A社ZZ案件 / 設計",
        "  22:16 → 00:06  1h50m  A社ZZ案件 / CLI実装",
        "                 4h05m",
        "",
        "2026-08-31 (月)",
        "  00:06 → 00:46  40m    A社ZZ案件 / レビュー対応",
        "  00:31 → 00:51  20m    playground / 調査",
        "                 1h00m",
        "",
        "A社ZZ案件   4h45m",
        "playground  20m",
        "─────────────────",
        "合計        5h05m",
    ];
    assert_eq!(report(&week()), expected);
}

#[test]
fn a_single_day_has_no_day_total() {
    let entries = vec![entry("/work/acme", None, None, at(2026, 8, 31, 9, 0), at(2026, 8, 31, 9, 45))];
    assert_eq!(report(&entries), vec!["2026-08-31 (月)", "  09:00 → 09:45  45m    acme", "", "acme  45m", "─────────", "合計  45m"]);
}

#[test]
fn nothing_to_show_says_so() {
    assert_eq!(report(&Vec::new()), vec!["· 記録がありません"]);
}

#[test]
fn records_belong_to_the_day_they_start() {
    let entries = vec![entry("/work/acme", Some("Acme"), None, at(2026, 8, 30, 23, 0), at(2026, 8, 31, 1, 0))];
    let lines = report(&entries);
    assert_eq!(lines[0], "2026-08-30 (日)");
    assert_eq!(lines[1], "  23:00 → 01:00  2h00m  Acme");
}

#[test]
fn a_record_ending_before_it_starts_counts_as_zero() {
    let entries = vec![entry("/w/a", None, None, at(2026, 8, 31, 10, 0), at(2026, 8, 31, 9, 0))];
    let lines = report(&entries);
    assert_eq!(lines[1], "  10:00 → 09:00  0m     a");
    assert_eq!(lines[5], "合計  0m");
}

#[test]
fn ranges_start_where_their_flag_says() {
    let today = date(2026, 9, 3);
    let range = |week: bool, month: bool, all: bool| Range { week, month, all };
    assert!(matches!(start_of_range(range(false, false, false), None, today), Ok(Some(d)) if d == today));
    assert!(matches!(start_of_range(range(true, false, false), None, today), Ok(Some(d)) if d == date(2026, 8, 31)));
    assert!(matches!(start_of_range(range(false, true, false), None, today), Ok(Some(d)) if d == date(2026, 9, 1)));
    assert!(matches!(start_of_range(range(false, false, true), None, today), Ok(None)));
    assert!(matches!(
        start_of_range(range(true, true, true), Some("2026-08-01"), today),
        Ok(Some(d)) if d == date(2026, 8, 1)
    ));
    assert!(matches!(start_of_range(Range::default(), None, today), Ok(Some(d)) if d == today));
}

#[test]
fn a_since_that_is_no_date_is_refused() {
    match start_of_range(Range::default(), Some("yesterday"), date(2026, 9, 3)) {
        Err(RangeError::BadSince(text)) => assert_eq!(text, "yesterday"),
        other => panic!("unexpected {other:?}"),
    }
}

#[test]
fn the_week_starts_on_monday() {
    assert_eq!(week_start(date(2026, 8, 31), 0), Some(date(2026, 8, 31)));
    assert_eq!(week_start(date(2026, 8, 30), 6), Some(date(2026, 8, 24)));
    assert_eq!(week_start(date(2026, 3, 1), 6), Some(date(2026, 2, 23)));
    assert_eq!(week_start(date(-9999, 1, 2), 2), None);
    assert!(matches!(
        start_of_range(Range { week: true, month: false, all: false }, None, date(2026, 8, 30)),
        Ok(Some(d)) if d == date(2026, 8, 24)
    ));
}

#[test]
fn selection_keeps_records_from_the_start_day_on() {
    let picked = select_entries(week(), Some(date(2026, 8, 31)), None, None);
    assert_eq!(picked.len(), 2);
    assert!(picked.iter().all(|e| e.started_at.date == date(2026, 8, 31)));
    assert_eq!(select_entries(week(), None, None, None).len(), 4);
}

#[test]
fn selection_here_keeps_the_records_of_this_repository() {
    let here = select_entries(week(), None, Some("/home/me/ws/playground"), Some("/home/me"));
    assert_eq!(here.len(), 1);
    assert_eq!(here[0].path, "~/ws/playground");
    assert_eq!(select_entries(week(), None, Some("/home/me/ws/playground"), None).len(), 0);
}

#[test]
fn a_running_session_is_shown_under_the_report() {
    let session = Session {
        path: "~/ws/acme/api".to_string(),
        label: Some("A社ZZ案件".to_string()),
        note: Some("CLI実装".to_string()),
        started_at: at(2026, 8, 31, 9, 30),
    };
    assert_eq!(running_report_line(&session, &at(2026, 8, 31, 11, 45)), "▶ 09:30  A社ZZ案件 / CLI実装  2h15m (打刻中)");
}

#[test]
fn totals_by_name_add_up_to_the_grand_total() {
    let lines = report(&week());
    let minutes = |text: &str| -> i64 {
        let text = text.trim().trim_end_matches('m');
        match text.split_once('h') {
            Some((h, m)) => h.parse::<i64>().unwrap() * 60 + m.parse::<i64>().unwrap(),
            None => text.parse::<i64>().unwrap(),
        }
    };
    let by_name: i64 = lines[10..12].iter().map(|l| minutes(l.rsplit("  ").next().unwrap())).sum();
    assert_eq!(by_name, minutes(lines[13].rsplit("  ").next().unwrap()));
    let by_day = minutes(&lines[3]) + minutes(&lines[8]);
    assert_eq!(by_day, minutes(lines[13].rsplit("  ").next().unwrap()));
}

#[test]
fn a_report_that_cannot_be_summed_is_refused() {
    assert_eq!(try_report_lines(&week()), Some(report(&week())));
    let mut far = at(2026, 8, 31, 9, 0);
    far.instant = 500_000_000_000_000_000_000;
    let entries = vec![entry("/w/a", None, None, at(2026, 8, 31, 9, 0), far)];
    assert!(!can_report(&entries));
    assert_eq!(try_report_lines(&entries), None);
}

#[test]
fn range_errors_explain_themselves() {
    assert_eq!(RangeError::BadSince("x".to_string()).message(), "--since x は 2026-08-01 のような日付ではありません");
    assert_eq!(RangeError::NoMonthStart.message(), "月初を計算できませんでした");
    assert_eq!(RangeError::NoWeekStart.message(), "週初を計算できませんでした");
}
