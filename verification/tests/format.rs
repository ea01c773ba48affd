use dakoku::format::{clock, date, date_on, duration, pad, pad_from, title, width};
use dakoku::time::{CivilDate, Moment, Span};

fn seconds(secs: i64) -> Span {
    Span { nanos: jiff::SignedDuration::from_secs(secs).as_nanos() }
}

fn moment(hour: i8, minute: i8, second: i8) -> Moment {
    let zone = jiff::tz::TimeZone::fixed(jiff::tz::offset(9));
    let zoned = jiff::civil::date(2026, 8, 31).at(hour, minute, second, 0).to_zoned(zone).expect("a valid time");
    Moment {
        instant: zoned.timestamp().as_nanosecond(),
        date: CivilDate { year: zoned.year(), month: zoned.month(), day: zoned.day() },
        hour: zoned.hour(),
        minute: zoned.minute(),
        zone: zoned.time_zone().clone(),
    }
}

#[test]
fn durations_read_as_hours_and_minutes() {
    assert_eq!(duration(seconds(0)), "0m");
    assert_eq!(duration(seconds(45 * 60)), "45m");
    assert_eq!(duration(seconds(3600)), "1h00m");
    assert_eq!(duration(seconds(9320)), "2h35m");
}

#[test]
fn negative_durations_clamp_to_zero() {
    assert_eq!(duration(seconds(-60)), "0m");
}

#[test]
fn padding_counts_display_width_not_bytes() {
    // Each CJK character occupies two columns.
    assert_eq!(pad("A社", 6), "A社   ");
    assert_eq!(pad("abc", 6), "abc   ");
}

#[test]
fn titles_drop_an_absent_note() {
    assert_eq!(title("A社ZZ案件", Some("CLI実装")), "A社ZZ案件 / CLI実装");
    assert_eq!(title("A社ZZ案件", None), "A社ZZ案件");
    assert_eq!(title("A社ZZ案件", Some("")), "A社ZZ案件");
}

#[test]
fn partial_minutes_and_seconds_are_dropped() {
    assert_eq!(duration(seconds(59)), "0m");
    assert_eq!(duration(seconds(3599)), "59m");
    assert_eq!(duration(Span { nanos: 60_999_999_999 }), "1m");
    assert_eq!(duration(seconds(36 * 3600 + 5 * 60)), "36h05m");
}

#[test]
fn widths_count_wide_characters_twice() {
    assert_eq!(width("abc"), 3);
    assert_eq!(width("A社ZZ案件"), 9);
    assert_eq!(width(""), 0);
}

#[test]
fn padding_never_cuts_a_longer_text() {
    assert_eq!(pad("A社ZZ案件", 4), "A社ZZ案件");
    assert_eq!(pad("", 2), "  ");
    assert_eq!(pad_from("x", 3, 5), "x  ");
    assert_eq!(pad_from("x", 7, 5), "x");
}

#[test]
fn clocks_show_hours_and_minutes_with_two_digits() {
    assert_eq!(clock(&moment(9, 5, 0)), "09:05");
    assert_eq!(clock(&moment(23, 59, 59)), "23:59");
}

#[test]
fn dates_carry_their_weekday() {
    assert_eq!(date(CivilDate { year: 2026, month: 8, day: 30 }), "2026-08-30 (日)");
    assert_eq!(date(CivilDate { year: 2026, month: 8, day: 31 }), "2026-08-31 (月)");
    assert_eq!(date(CivilDate { year: 2024, month: 2, day: 29 }), "2024-02-29 (木)");
    assert_eq!(date(CivilDate { year: 7, month: 1, day: 2 }), "0007-01-02 (火)");
}

#[test]
fn a_date_is_written_with_the_weekday_given() {
    assert_eq!(date_on(CivilDate { year: 2026, month: 8, day: 31 }, 4), "2026-08-31 (金)");
}
