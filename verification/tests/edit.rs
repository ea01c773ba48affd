use dakoku::commands::edit::{amend_entry, check_request, edit_last, edit_running, EditError};
use dakoku::store::{Entry, Session};
use dakoku::time::{CivilDate, Moment};
use dakoku::timearg::TimeArgProblem;

fn at(hour: i8, minute: i8) -> Moment {
    let zone = jiff::tz::TimeZone::fixed(jiff::tz::offset(9));
    let zoned = jiff::civil::date(2026, 8, 31).at(hour, minute, 0, 0).to_zoned(zone).expect("a valid time");
    Moment {
        instant: zoned.timestamp().as_nanosecond(),
        date: CivilDate { year: zoned.year(), month: zoned.month(), day: zoned.day() },
        hour: zoned.hour(),
        minute: zoned.minute(),
        zone: zoned.time_zone().clone(),
    }
}

fn session() -> Session {
    Session { path: "~/ws/acme".to_string(), label: Some("Acme".to_string()), note: Some("設計".to_string()), started_at: at(9, 30) }
}

fn record(start: (i8, i8), end: (i8, i8), note: &str) -> Entry {
    Entry {
        path: "~/ws/acme".to_string(),
        label: Some("Acme".to_string()),
        note: Some(note.to_string()),
        started_at: at(start.0, start.1),
        ended_at: at(end.0, end.1),
    }
}

#[test]
fn an_edit_must_change_something() {
    match check_request(&None, &None, &None) {
        Err(e @ EditError::NothingToChange) => {
            assert_eq!(e.message(), "変更内容がありません。--note、--in、--out のいずれかを指定してください")
        },
        other => panic!("unexpected {other:?}"),
    }
    assert!(check_request(&Some("x".to_string()), &None, &None).is_ok());
    assert!(check_request(&None, &None, &Some("10:00".to_string())).is_ok());
}

#[test]
fn a_running_session_takes_a_new_note_and_start() {
    let now = at(12, 0);
    let edited = edit_running(session(), Some("レビュー".to_string()), Some("09:00"), false, &now).expect("an edit");
    assert_eq!(edited.note.as_deref(), Some("レビュー"));
    assert_eq!(edited.started_at.instant, at(9, 0).instant);
    assert_eq!(edited.path, "~/ws/acme");
    let back = edit_running(session(), None, Some("-90m"), false, &now).expect("an edit");
    assert_eq!(back.started_at.instant, at(10, 30).instant);
    assert_eq!(back.note.as_deref(), Some("設計"));
}

#[test]
fn a_blank_note_clears_the_note() {
    let edited = edit_running(session(), Some("   ".to_string()), None, false, &at(12, 0)).expect("an edit");
    assert_eq!(edited.note, None);
    assert_eq!(edited.started_at.instant, at(9, 30).instant);
}

#[test]
fn a_running_session_has_no_end_to_edit() {
    match edit_running(session(), None, None, true, &at(12, 0)) {
        Err(e @ EditError::RunningHasNoEnd) => {
            assert_eq!(e.message(), "打刻中のセッションです。締めるには dakoku out --at <時刻> を使ってください")
        },
        other => panic!("unexpected {other:?}"),
    }
}

#[test]
fn a_start_in_the_future_is_refused() {
    let now = at(12, 0);
    // The date form is taken as given, so a later time today stays in the future.
    match edit_running(session(), None, Some("2026-08-31 13:00"), false, &now) {
        Err(e @ EditError::StartInFuture(_)) => assert_eq!(e.message(), "13:00 は未来の時刻です"),
        other => panic!("unexpected {other:?}"),
    }
}

#[test]
fn an_unreadable_time_is_refused_with_its_reason() {
    match edit_running(session(), None, Some("25:00"), false, &at(12, 0)) {
        Err(EditError::Time(e)) => {
            assert_eq!(e.problem, TimeArgProblem::NoSuchClock);
            assert_eq!(EditError::Time(e).message(), "25:00 は存在しない時刻です");
        },
        other => panic!("unexpected {other:?}"),
    }
}

#[test]
fn the_last_record_takes_the_edit() {
    let mut entries = vec![record((8, 0), (8, 30), "朝会"), record((9, 0), (10, 0), "設計")];
    edit_last(&mut entries, Some("実装".to_string()), Some("09:15"), Some("11:00"), &at(12, 0)).expect("an edit");
    assert_eq!(entries.len(), 2);
    assert_eq!(entries[0].note.as_deref(), Some("朝会"));
    assert_eq!(entries[0].started_at.instant, at(8, 0).instant);
    assert_eq!(entries[1].note.as_deref(), Some("実装"));
    assert_eq!(entries[1].started_at.instant, at(9, 15).instant);
    assert_eq!(entries[1].ended_at.instant, at(11, 0).instant);
}

#[test]
fn an_end_before_the_start_leaves_the_records_alone() {
    let mut entries = vec![record((9, 0), (10, 0), "設計")];
    match edit_last(&mut entries, None, None, Some("08:00"), &at(12, 0)) {
        Err(e @ EditError::EndBeforeStart { .. }) => assert_eq!(e.message(), "終了 08:00 が開始 09:00 より前になっています"),
        other => panic!("unexpected {other:?}"),
    }
    assert_eq!(entries[0].ended_at.instant, at(10, 0).instant);
}

#[test]
fn there_must_be_a_record_to_edit() {
    let mut entries: Vec<Entry> = Vec::new();
    match edit_last(&mut entries, Some("x".to_string()), None, None, &at(12, 0)) {
        Err(e @ EditError::NoEntries) => assert_eq!(e.message(), "記録がまだありません"),
        other => panic!("unexpected {other:?}"),
    }
}

#[test]
fn amending_a_record_checks_its_order() {
    let amended = amend_entry(record((9, 0), (10, 0), "設計"), None, Some(at(9, 45)), None).expect("an edit");
    assert_eq!(amended.started_at.instant, at(9, 45).instant);
    assert_eq!(amended.ended_at.instant, at(10, 0).instant);
    assert!(amend_entry(record((9, 0), (10, 0), "設計"), None, Some(at(10, 30)), None).is_err());
}

#[test]
fn a_start_after_the_recorded_end_is_refused() {
    let mut entries = vec![record((9, 0), (9, 45), "設計")];
    match edit_last(&mut entries, None, Some("09:50"), None, &at(10, 0)) {
        Err(e @ EditError::EndBeforeStart { .. }) => assert_eq!(e.message(), "終了 09:45 が開始 09:50 より前になっています"),
        other => panic!("unexpected {other:?}"),
    }
    assert_eq!(entries[0].started_at.instant, at(9, 0).instant);
}

#[test]
fn an_end_offset_too_large_to_sum_is_reported_as_such() {
    let now = at(12, 0);
    let mut entries = vec![record((9, 0), (10, 0), "設計")];
    let before = entries.clone();
    match edit_last(&mut entries, None, None, Some("-3000000000000000h"), &now) {
        Err(e @ EditError::OffsetOverflow(_)) => {
            assert_eq!(e.message(), "-3000000000000000h は扱える範囲を超えています")
        },
        other => panic!("unexpected {other:?}"),
    }
    assert_eq!(entries.len(), before.len());
    assert_eq!(entries[0].ended_at.instant, before[0].ended_at.instant);
    // A refused `--in` is reported before `--out` is looked at.
    match edit_last(&mut entries, None, Some("25:00"), Some("-3000000000000000h"), &now) {
        Err(EditError::Time(e)) => assert_eq!(e.problem, TimeArgProblem::NoSuchClock),
        other => panic!("unexpected {other:?}"),
    }
}
