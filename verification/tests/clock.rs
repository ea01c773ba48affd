use dakoku::commands::clock::{closed_line, new_session, plan_clock_in, plan_clock_out, running_line, started_line, ClockError};
use dakoku::store::{keep_note, Entry, Session};
use dakoku::time::{CivilDate, Moment};

fn at(hour: i8, minute: i8) -> Moment {
    let zone = jiff::tz::TimeZone::fixed(jiff::tz::offset(9));
    let zoned = jiff::civil::date(2026, 8, 31).at(hour, minute, 0, 0).to_zoned(zone).expect("a valid time");
    Moment {
        instant: zoned.timestamp().as_nanosecond(),
        date: CivilDate { year: zoned.year(), month: zoned.month(), day: zoned.day() },
        hour: zoned.hour(),
        minute: zoned.minute(),
        zone: zoned.time_zone().clone(),
    }
}

fn running() -> Session {
    Session {
        path: "~/ws/acme/api".to_string(),
        label: Some("A社ZZ案件".to_string()),
        note: Some("CLI実装".to_string()),
        started_at: at(9, 30),
    }
}

#[test]
fn clocking_in_with_nothing_running_closes_nothing() {
    assert!(matches!(plan_clock_in(None, &at(9, 30), false), Ok(None)));
    assert!(matches!(plan_clock_in(None, &at(9, 30), true), Ok(None)));
}

#[test]
fn only_one_session_runs_at_a_time() {
    match plan_clock_in(Some(running()), &at(11, 45), false) {
        Err(e @ ClockError::AlreadyRunning { .. }) => assert_eq!(
            e.message(),
            "A社ZZ案件 を 09:30 から打刻中です\n先に dakoku out で締めるか、--switch を付けて切り替えてください"
        ),
        other => panic!("unexpected {other:?}"),
    }
}

#[test]
fn switching_closes_the_running_session_at_the_new_start() {
    let closed: Entry = plan_clock_in(Some(running()), &at(11, 45), true).expect("a switch").expect("a closed record");
    assert_eq!(closed.path, "~/ws/acme/api");
    assert_eq!(closed.label.as_deref(), Some("A社ZZ案件"));
    assert_eq!(closed.started_at.instant, at(9, 30).instant);
    assert_eq!(closed.ended_at.instant, at(11, 45).instant);
    assert_eq!(closed_line(&closed), "■ 09:30 → 11:45  A社ZZ案件 / CLI実装  2h15m");
}

#[test]
fn switching_to_a_time_before_the_running_start_is_refused() {
    match plan_clock_in(Some(running()), &at(9, 0), true) {
        Err(e @ ClockError::SwitchBeforeRunning { .. }) => {
            assert_eq!(e.message(), "09:00 には切り替えられません。打刻中のセッションはより後の 09:30 に開始しています")
        },
        other => panic!("unexpected {other:?}"),
    }
}

#[test]
fn clocking_out_closes_the_session() {
    let entry = plan_clock_out(running(), at(11, 45)).expect("a record");
    assert_eq!(closed_line(&entry), "■ 09:30 → 11:45  A社ZZ案件 / CLI実装  2h15m");
    let same_moment = plan_clock_out(running(), at(9, 30)).expect("a record");
    assert_eq!(closed_line(&same_moment), "■ 09:30 → 09:30  A社ZZ案件 / CLI実装  0m");
}

#[test]
fn clocking_out_before_the_start_is_refused() {
    match plan_clock_out(running(), at(9, 0)) {
        Err(e @ ClockError::EndBeforeStart { .. }) => {
            assert_eq!(e.message(), "09:00 には終了できません。開始時刻はより後の 09:30 です")
        },
        other => panic!("unexpected {other:?}"),
    }
    assert_eq!(ClockError::NotClockedIn.message(), "打刻していません。dakoku in で開始してください");
}

#[test]
fn a_new_session_keeps_the_label_in_effect_and_a_real_note() {
    let session = new_session("/home/me/ws/acme/api", Some("A社ZZ案件".to_string()), Some("CLI実装".to_string()), at(9, 30), Some("/home/me"));
    assert_eq!(session.path, "~/ws/acme/api");
    assert_eq!(session.label.as_deref(), Some("A社ZZ案件"));
    assert_eq!(session.note.as_deref(), Some("CLI実装"));
    assert_eq!(started_line(&session, "A社ZZ案件"), "▶ 09:30  A社ZZ案件 / CLI実装");
    let blank = new_session("/work/x", None, Some("  ".to_string()), at(9, 30), None);
    assert_eq!(blank.path, "/work/x");
    assert_eq!(blank.note, None);
    assert_eq!(started_line(&blank, "x"), "▶ 09:30  x");
}

#[test]
fn status_shows_how_long_the_session_has_run() {
    assert_eq!(running_line(&running(), &at(12, 5)), "▶ 09:30  A社ZZ案件 / CLI実装  2h35m");
    let unlabelled = Session { label: None, note: None, ..running() };
    assert_eq!(running_line(&unlabelled, &at(9, 31)), "▶ 09:30  api  1m");
}

#[test]
fn blank_notes_are_dropped() {
    assert_eq!(keep_note(Some(" \t ".to_string())), None);
    assert_eq!(keep_note(Some("".to_string())), None);
    assert_eq!(keep_note(Some(" x ".to_string())).as_deref(), Some(" x "));
    assert_eq!(keep_note(None), None);
}
