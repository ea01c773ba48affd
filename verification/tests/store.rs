use dakoku::store::{record_lines, span_between, Entry, Session};
use dakoku::time::{CivilDate, Moment};

fn at(hour: i8, minute: i8) -> Moment {
    let zone = jiff::tz::TimeZone::fixed(jiff::tz::offset(9));
    let zoned = jiff::civil::date(2026, 8, 31).at(hour, minute, 0, 0).to_zoned(zone).expect("a valid time");
    Moment {
        instant: zoned.timestamp().as_nanosecond(),
        date: CivilDate { year: zoned.year(), month: zoned.month(), day: zoned.day() },
        hour: zoned.hour(),
        minute: zoned.minute(),
        zone: zoned.time_zone().clone(),
    }
}

#[test]
fn a_closed_session_keeps_what_it_recorded() {
    let session = Session {
        path: "~/ws/acme".to_string(),
        label: Some("Acme".to_string()),
        note: Some("設計".to_string()),
        started_at: at(9, 30),
    };
    assert_eq!(session.elapsed(&at(10, 0)).nanos, 30 * 60 * 1_000_000_000);
    let entry: Entry = session.close(at(11, 0));
    assert_eq!(entry.path, "~/ws/acme");
    assert_eq!(entry.label.as_deref(), Some("Acme"));
    assert_eq!(entry.note.as_deref(), Some("設計"));
    assert_eq!(entry.started_at.instant, at(9, 30).instant);
    assert_eq!(entry.ended_at.instant, at(11, 0).instant);
    assert_eq!(entry.duration().nanos, 90 * 60 * 1_000_000_000);
}

#[test]
fn a_record_goes_by_its_label_else_its_directory() {
    let mut entry = Entry {
        path: "~/ws/acme-api".to_string(),
        label: Some("Acme".to_string()),
        note: None,
        started_at: at(9, 0),
        ended_at: at(10, 0),
    };
    assert_eq!(entry.display_name(), "Acme");
    entry.label = None;
    assert_eq!(entry.display_name(), "acme-api");
    entry.path = "~".to_string();
    assert_eq!(entry.display_name(), "~");
    entry.path = "/".to_string();
    assert_eq!(entry.display_name(), "/");
}

#[test]
fn spans_run_backwards_too() {
    assert_eq!(span_between(&at(10, 0), &at(9, 0)).nanos, -3600 * 1_000_000_000);
}

#[test]
fn blank_lines_are_skipped_and_the_rest_numbered() {
    let raw = "{\"a\":1}\n\n  \r\n{\"b\":2}\r\n{\"c\":3}";
    let lines = record_lines(raw);
    assert_eq!(
        lines,
        vec![(1, "{\"a\":1}".to_string()), (4, "{\"b\":2}".to_string()), (5, "{\"c\":3}".to_string())]
    );
    assert_eq!(record_lines(""), Vec::new());
    assert_eq!(record_lines("x\n"), vec![(1, "x".to_string())]);
    assert_eq!(record_lines("x\r"), vec![(1, "x\r".to_string())]);
}
