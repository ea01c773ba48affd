use dakoku::time::{CivilDate, Moment};
use dakoku::timearg::{overflows, read_at, resolve, settle_clock, AtForm, TimeArgError, TimeArgProblem};

fn tokyo() -> jiff::tz::TimeZone {
    // Asia/Tokyo keeps +09:00 all year; a fixed offset stands in where no tz database is found.
    jiff::tz::TimeZone::get("Asia/Tokyo").unwrap_or_else(|_| jiff::tz::TimeZone::fixed(jiff::tz::offset(9)))
}

fn moment_of(zoned: &jiff::Zoned) -> Moment {
    Moment {
        instant: zoned.timestamp().as_nanosecond(),
        date: CivilDate { year: zoned.year(), month: zoned.month(), day: zoned.day() },
        hour: zoned.hour(),
        minute: zoned.minute(),
        zone: zoned.time_zone().clone(),
    }
}

fn now() -> Moment {
    let zoned = jiff::civil::date(2026, 8, 31).at(10, 0, 0, 0).to_zoned(tokyo()).expect("a valid fixture timestamp");
    moment_of(&zoned)
}

fn rendered(m: &Moment) -> String {
    let ts = jiff::Timestamp::from_nanosecond(m.instant).expect("an instant in range");
    ts.to_zoned(m.zone.clone()).to_string()
}

fn attempt(raw: &str) -> Result<Moment, TimeArgError> {
    assert!(!overflows(raw));
    resolve(raw, &now())
}

fn resolved(raw: &str) -> String {
    rendered(&attempt(raw).ok().expect("a resolvable time"))
}

fn refused(raw: &str) -> (TimeArgProblem, String) {
    match attempt(raw) {
        Ok(_) => panic!("{raw} should not parse"),
        Err(e) => (e.problem, e.text),
    }
}

#[test]
fn a_clock_time_earlier_today_stays_today() {
    assert!(resolved("09:30").starts_with("2026-08-31T09:30:00"));
}

#[test]
fn a_clock_time_still_ahead_falls_back_to_yesterday() {
    assert!(resolved("22:00").starts_with("2026-08-30T22:00:00"));
}

#[test]
fn explicit_dates_are_taken_as_given() {
    assert!(resolved("2026-08-29 13:00").starts_with("2026-08-29T13:00:00"));
    assert!(resolved("2026-08-29T13:00").starts_with("2026-08-29T13:00:00"));
}

#[test]
fn offsets_count_back_from_now() {
    assert!(resolved("-90m").starts_with("2026-08-31T08:30:00"));
    assert!(resolved("-1h30m").starts_with("2026-08-31T08:30:00"));
    assert!(resolved("-2h").starts_with("2026-08-31T08:00:00"));
    // A bare number is read as minutes.
    assert!(resolved("-45").starts_with("2026-08-31T09:15:00"));
}

#[test]
fn malformed_values_are_rejected() {
    for raw in ["", "18", "25:00", "10:99", "-", "-5x", "tomorrow"] {
        assert!(attempt(raw).is_err(), "{raw} should not parse");
    }
}

#[test]
fn each_refusal_names_its_problem() {
    assert_eq!(refused(""), (TimeArgProblem::Empty, String::new()));
    assert_eq!(refused("   "), (TimeArgProblem::Empty, String::new()));
    assert_eq!(refused("18"), (TimeArgProblem::BadClock, "18".to_string()));
    assert_eq!(refused("tomorrow"), (TimeArgProblem::BadClock, "tomorrow".to_string()));
    assert_eq!(refused("25:00"), (TimeArgProblem::NoSuchClock, "25:00".to_string()));
    assert_eq!(refused("10:99"), (TimeArgProblem::NoSuchClock, "10:99".to_string()));
    assert_eq!(refused("-"), (TimeArgProblem::BadOffset, String::new()));
    assert_eq!(refused("-5x"), (TimeArgProblem::BadOffset, "5x".to_string()));
    assert_eq!(refused("-h"), (TimeArgProblem::BadOffset, "h".to_string()));
    assert_eq!(refused("2026-13-01 10:00"), (TimeArgProblem::BadDateTime, "2026-13-01 10:00".to_string()));
    assert_eq!(refused("2026-08-29 10"), (TimeArgProblem::BadClock, "10".to_string()));
    assert_eq!(refused("2026-08-29 24:00"), (TimeArgProblem::NoSuchClock, "24:00".to_string()));
}

#[test]
fn messages_quote_the_value() {
    let message = |raw: &str| attempt(raw).err().expect("a refusal").message();
    assert_eq!(message(""), "--at には 18:00、2026-08-30 18:00、-90m のような値を指定してください");
    assert_eq!(message("-5x"), "5x は 90m、1h30m、2h のような差分ではありません");
    assert_eq!(message("18"), "18 は 18:00 のような時刻ではありません");
    assert_eq!(message("25:00"), "25:00 は存在しない時刻です");
    assert_eq!(message("someday 10:00"), "someday 10:00 は 2026-08-30 18:00 のような日時ではありません");
}

#[test]
fn white_space_around_a_value_is_ignored() {
    assert!(resolved("  09:30 ").starts_with("2026-08-31T09:30:00"));
    assert!(resolved(" -15m").starts_with("2026-08-31T09:45:00"));
}

#[test]
fn offsets_add_up_their_parts() {
    assert!(resolved("-1h1h").starts_with("2026-08-31T08:00:00"));
    assert!(resolved("-0m").starts_with("2026-08-31T10:00:00"));
    assert!(resolved("-1h15").starts_with("2026-08-31T08:45:00"));
}

#[test]
fn the_forms_read_before_any_time_zone() {
    assert!(matches!(read_at("-90m"), Ok(AtForm::Back(5400))));
    assert!(matches!(read_at("09:30"), Ok(AtForm::Clock(9, 30))));
    assert!(matches!(
        read_at("2026-08-29T13:00"),
        Ok(AtForm::At(CivilDate { year: 2026, month: 8, day: 29 }, 13, 0))
    ));
}

#[test]
fn an_offset_too_large_to_sum_is_caught_first() {
    assert!(overflows("-3000000000000000h"));
    assert!(overflows("-2562047788015216h"));
    assert!(!overflows("-2562047788015215h"));
    assert!(!overflows("-90m"));
    assert!(!overflows("09:30"));
}

#[test]
fn a_run_of_digits_too_long_for_an_integer_is_no_offset() {
    assert!(!overflows("-99999999999999999999m"));
    assert_eq!(refused("-99999999999999999999m"), (TimeArgProblem::BadOffset, "99999999999999999999m".to_string()));
}

#[test]
fn an_offset_beyond_the_calendar_is_out_of_range() {
    assert_eq!(refused("-2562047788015215h"), (TimeArgProblem::OutOfRange, "-2562047788015215h".to_string()));
}

#[test]
fn a_clock_time_exactly_now_stays_today() {
    assert!(resolved("10:00").starts_with("2026-08-31T10:00:00"));
}

#[test]
fn a_clock_time_placed_today_stays_unless_still_ahead() {
    let now = now();
    let earlier = resolve("09:30", &now).ok().expect("a time");
    assert!(dakoku::timearg::keep_today(&earlier, &now));
    let mut later = now.clone();
    later.instant += 1;
    assert!(!dakoku::timearg::keep_today(&later, &now));
    assert!(dakoku::timearg::keep_today(&now, &now));
}

#[test]
fn offsets_of_equal_seconds_land_on_the_same_instant() {
    let now = now();
    let a = resolve("-1h30m", &now).ok().expect("a time");
    let b = resolve("-90m", &now).ok().expect("a time");
    let c = resolve("-90", &now).ok().expect("a time");
    assert_eq!(a.instant, b.instant);
    assert_eq!(b.instant, c.instant);
    assert_eq!(a.instant, now.instant - 90 * 60 * 1_000_000_000);
    assert!(a.instant <= now.instant);
}

fn placed_on(year: i16, month: i8, day: i8, hour: i8, minute: i8) -> Moment {
    let zoned = jiff::civil::date(year, month, day).at(hour, minute, 0, 0).to_zoned(tokyo()).expect("a valid time");
    moment_of(&zoned)
}

#[test]
fn a_placement_today_not_after_now_is_kept() {
    let yesterday = Ok(placed_on(2026, 8, 30, 9, 30));
    let kept = settle_clock("09:30", Some(placed_on(2026, 8, 31, 9, 30)), yesterday, &now()).ok().expect("a time");
    assert_eq!(kept.instant, placed_on(2026, 8, 31, 9, 30).instant);
    assert!(rendered(&kept).starts_with("2026-08-31T09:30:00"));
    // Exactly now still counts as today.
    let at_now = settle_clock("10:00", Some(placed_on(2026, 8, 31, 10, 0)), Ok(placed_on(2026, 8, 30, 10, 0)), &now())
        .ok()
        .expect("a time");
    assert_eq!(at_now.instant, now().instant);
    // Today's placement stands even where the day before could not be placed.
    let alone = settle_clock("09:30", Some(placed_on(2026, 8, 31, 9, 30)), Err(TimeArgProblem::NotInZone), &now());
    assert_eq!(alone.ok().expect("a time").instant, placed_on(2026, 8, 31, 9, 30).instant);
}

#[test]
fn a_placement_today_still_ahead_gives_way_to_yesterday() {
    let today = Some(placed_on(2026, 8, 31, 22, 0));
    let settled = settle_clock(" 22:00 ", today, Ok(placed_on(2026, 8, 30, 22, 0)), &now()).ok().expect("a time");
    assert!(rendered(&settled).starts_with("2026-08-30T22:00:00"));
    assert_eq!(settled.date, CivilDate { year: 2026, month: 8, day: 30 });
    match settle_clock(" 22:00 ", Some(placed_on(2026, 8, 31, 22, 0)), Err(TimeArgProblem::OutOfRange), &now()) {
        Err(e) => {
            assert_eq!(e.problem, TimeArgProblem::OutOfRange);
            assert_eq!(e.text, "22:00");
        },
        Ok(_) => panic!("a day before that could not be placed should be refused"),
    }
}

#[test]
fn no_placement_today_is_refused_as_not_in_the_zone() {
    match settle_clock(" 09:30 ", None, Ok(placed_on(2026, 8, 30, 9, 30)), &now()) {
        Err(e) => {
            assert_eq!(e.problem, TimeArgProblem::NotInZone);
            assert_eq!(e.text, "09:30");
        },
        Ok(_) => panic!("no placement should be refused"),
    }
}
