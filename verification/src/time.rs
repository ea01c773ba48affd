//! Civil dates, instants and spans, and the calls into `jiff` that compute on them.

use vstd::prelude::*;

verus! {

/// A time zone from `jiff`; the library carries it through and never looks inside.
#[verifier::external_type_specification]
#[verifier::external_body]
pub struct ExTimeZone(jiff::tz::TimeZone);

/// `TimeZone::clone` of `jiff` (a derived `Clone` of its shared representation): the copy
/// is the same zone.
pub assume_specification[ <jiff::tz::TimeZone as Clone>::clone ](zone: &jiff::tz::TimeZone) -> (r: jiff::tz::TimeZone)
    ensures
        r == *zone,
;

/// A civil (wall calendar) date.
#[derive(Clone, Copy, Debug, PartialEq, Eq, Structural)]
pub struct CivilDate {
    pub year: i16,
    pub month: i8,
    pub day: i8,
}

/// A point in time as a zoned timestamp: the instant, the local calendar date and clock
/// reading at that instant, and the time zone that produced them.
#[derive(Debug)]
pub struct Moment {
    /// Nanoseconds since the Unix epoch.
    pub instant: i128,
    pub date: CivilDate,
    pub hour: i8,
    pub minute: i8,
    pub zone: jiff::tz::TimeZone,
}

/// A signed length of time, in nanoseconds.
#[derive(Clone, Copy, Debug, PartialEq, Eq, Structural)]
pub struct Span {
    pub nanos: i128,
}

/// The longest span: that of `jiff`'s `SignedDuration::MAX`, whose whole
/// seconds are an `i64`.
pub open spec fn span_limit() -> int {
    i64::MAX as int * 1_000_000_000 + 999_999_999
}

/// Whether a span of `nanos` nanoseconds is one of `jiff`'s `SignedDuration`s: from
/// `SignedDuration::MIN` (`i64::MIN` seconds and -999999999 nanoseconds) to
/// `SignedDuration::MAX`.
pub open spec fn duration_fits(nanos: int) -> bool {
    i64::MIN as int * 1_000_000_000 - 999_999_999 <= nanos <= span_limit()
}

/// The first instant that `jiff` represents, in nanoseconds since the epoch
/// (`Timestamp::MIN`: -377705023201 seconds).
pub open spec fn instant_min() -> int {
    -377_705_023_201_000_000_000
}

/// The last instant that `jiff` represents, in nanoseconds since the epoch
/// (`Timestamp::MAX`: 253402207200 seconds and 999999999 nanoseconds).
pub open spec fn instant_max() -> int {
    253_402_207_200_999_999_999
}

pub open spec fn is_leap_year(year: int) -> bool {
    year % 4 == 0 && (year % 100 != 0 || year % 400 == 0)
}

pub open spec fn days_in_month(year: int, month: int) -> int {
    if month == 2 {
        if is_leap_year(year) { 29 } else { 28 }
    } else if month == 4 || month == 6 || month == 9 || month == 11 {
        30
    } else {
        31
    }
}

/// A date that `jiff` accepts: year in `-9999..=9999`, a real month, a day of that month.
pub open spec fn valid_ymd(year: int, month: int, day: int) -> bool {
    &&& -9999 <= year <= 9999
    &&& 1 <= month <= 12
    &&& 1 <= day <= days_in_month(year, month)
}

impl CivilDate {
    pub open spec fn valid(self) -> bool {
        valid_ymd(self.year as int, self.month as int, self.day as int)
    }

    /// Calendar order.
    pub open spec fn before(self, other: CivilDate) -> bool {
        ||| self.year < other.year
        ||| self.year == other.year && self.month < other.month
        ||| self.year == other.year && self.month == other.month && self.day < other.day
    }

    /// The day before a valid date.
    pub open spec fn previous(self) -> CivilDate {
        if self.day > 1 {
            CivilDate { year: self.year, month: self.month, day: (self.day - 1) as i8 }
        } else if self.month > 1 {
            CivilDate {
                year: self.year,
                month: (self.month - 1) as i8,
                day: days_in_month(self.year as int, self.month - 1) as i8,
            }
        } else {
            CivilDate { year: (self.year - 1) as i16, month: 12, day: 31 }
        }
    }

    pub open spec fn is_first_representable(self) -> bool {
        self.year == -9999 && self.month == 1 && self.day == 1
    }

    /// Exec form of [`CivilDate::before`].
    pub fn is_before(&self, other: &CivilDate) -> (r: bool)
        ensures
            r == self.before(*other),
    {
        self.year < other.year || (self.year == other.year && self.month < other.month) || (
        self.year == other.year && self.month == other.month && self.day < other.day)
    }
}

impl Span {
    /// Within the range of `jiff`'s `SignedDuration`.
    pub open spec fn valid(self) -> bool {
        duration_fits(self.nanos as int)
    }
}

pub fn days_in_month_of(year: i16, month: i8) -> (r: i8)
    requires
        1 <= month <= 12,
    ensures
        r == days_in_month(year as int, month as int),
{
    if month == 2 {
        if (year % 4 == 0 && year % 100 != 0) || year % 400 == 0 {
            29
        } else {
            28
        }
    } else if month == 4 || month == 6 || month == 9 || month == 11 {
        30
    } else {
        31
    }
}

impl Clone for Moment {
    fn clone(&self) -> (r: Moment)
        ensures
            r == *self,
    {
        Moment {
            instant: self.instant,
            date: self.date,
            hour: self.hour,
            minute: self.minute,
            zone: self.zone.clone(),
        }
    }
}

impl Moment {
    /// Exec form of [`Moment::valid`].
    pub fn is_valid(&self) -> (r: bool)
        ensures
            r == self.valid(),
    {
        let d = self.date;
        -9999 <= d.year && d.year <= 9999 && 1 <= d.month && d.month <= 12 && 1 <= d.day && d.day
            <= days_in_month_of(d.year, d.month) && 0 <= self.hour && self.hour <= 23 && 0
            <= self.minute && self.minute <= 59 && -377_705_023_201_000_000_000i128 <= self.instant
            && self.instant <= 253_402_207_200_999_999_999i128
    }

    /// What `jiff` guarantees of every zoned timestamp it hands out.
    pub open spec fn valid(self) -> bool {
        &&& self.date.valid()
        &&& 0 <= self.hour <= 23
        &&& 0 <= self.minute <= 59
        &&& instant_min() <= self.instant <= instant_max()
    }
}

/// The days in a year of the proleptic Gregorian calendar.
pub open spec fn year_length(year: int) -> int {
    if is_leap_year(year) {
        366
    } else {
        365
    }
}

/// The days from 0000-01-01 to the first of January of `year`.
pub open spec fn days_before_year(year: int) -> int
    decreases (if year >= 0 {
        year
    } else {
        -year
    }),
{
    if year == 0 {
        0
    } else if year > 0 {
        days_before_year(year - 1) + year_length(year - 1)
    } else {
        days_before_year(year + 1) - year_length(year)
    }
}

/// The days from the first of January of `year` to the first of `month`.
pub open spec fn days_before_month(year: int, month: int) -> int
    decreases month,
{
    if month <= 1 {
        0
    } else {
        days_before_month(year, month - 1) + days_in_month(year, month - 1)
    }
}

/// The number of a date: the days since 0000-01-01.
pub open spec fn day_number(date: CivilDate) -> int {
    days_before_year(date.year as int) + days_before_month(date.year as int, date.month as int) + date.day - 1
}

/// The civil reading of `m`, its date, hour and minute, in seconds since 1970-01-01T00:00
/// as if that reading were UTC.
pub open spec fn reading_seconds(m: Moment) -> int {
    (day_number(m.date) - day_number(CivilDate { year: 1970, month: 1, day: 1 })) * 86400 + m.hour * 3600
        + m.minute * 60
}

/// `m` reads its own instant: its civil reading is its instant, in whole seconds, moved by
/// an offset that `jiff` allows (`-25:59:59..=25:59:59`) and cut down to the minute.
pub open spec fn reads_its_instant(m: Moment) -> bool {
    -93_599 - 59 <= reading_seconds(m) - m.instant / 1_000_000_000 <= 93_599
}

/// The weekday of a date, counted from Monday as `0` (0000-01-01 was a Saturday).
pub open spec fn weekday_of(date: CivilDate) -> int {
    (day_number(date) + 5) % 7
}

proof fn lemma_days_before_year_step(year: int)
    ensures
        days_before_year(year) == days_before_year(year - 1) + year_length(year - 1),
{
}

proof fn lemma_december(year: int)
    ensures
        days_before_month(year, 12) == year_length(year) - 31,
{
    reveal_with_fuel(days_before_month, 12);
}

proof fn lemma_year_length_period(year: int)
    ensures
        year_length(year + 400) == year_length(year),
{
}

proof fn lemma_step_over(y: int, d: int)
    requires
        y >= 0,
        d > 0,
    ensures
        (y + d) / d - (y + d - 1) / d == (if y % d == 0 { 1int } else { 0int }),
{
    assert((y + d) / d == y / d + 1) by (nonlinear_arith)
        requires
            y >= 0,
            d > 0,
    ;
    assert((y + d - 1) / d == (if y % d == 0 { y / d } else { y / d + 1 })) by (nonlinear_arith)
        requires
            y >= 0,
            d > 0,
    ;
}

/// The days before `year`, for a year from 0 on, counted by the leap-year rule.
proof fn lemma_days_before_year_counted(year: int)
    requires
        year >= 0,
    ensures
        days_before_year(year) == 365 * year + (year + 3) / 4 - (year + 99) / 100 + (year + 399) / 400,
    decreases year,
{
    if year > 0 {
        let y = year - 1;
        lemma_days_before_year_counted(y);
        lemma_days_before_year_step(year);
        lemma_step_over(y, 4);
        lemma_step_over(y, 100);
        lemma_step_over(y, 400);
    }
}

/// Four hundred years of the Gregorian calendar hold 146097 days, a whole number of weeks.
proof fn lemma_four_centuries(year: int)
    ensures
        days_before_year(year + 400) == days_before_year(year) + 146097,
    decreases (if year >= 0 {
        year
    } else {
        -year
    }),
{
    if year == 0 {
        lemma_days_before_year_counted(400);
    } else if year > 0 {
        lemma_four_centuries(year - 1);
        lemma_days_before_year_step(year + 400);
        lemma_days_before_year_step(year);
        lemma_year_length_period(year - 1);
    } else {
        lemma_four_centuries(year + 1);
        lemma_days_before_year_step(year + 401);
        lemma_days_before_year_step(year + 1);
        lemma_year_length_period(year);
    }
}

proof fn lemma_centuries_back(k: nat)
    ensures
        days_before_year(1 - 400 * k) == days_before_year(1) - 146097 * k,
    decreases k,
{
    if k > 0 {
        lemma_centuries_back((k - 1) as nat);
        lemma_four_centuries(1 - 400 * k);
    }
}

/// The first date that `jiff` represents, -9999-01-01, is a Monday.
pub proof fn lemma_first_date_is_monday()
    ensures
        weekday_of(CivilDate { year: -9999i16, month: 1i8, day: 1i8 }) == 0,
{
    lemma_centuries_back(25);
    lemma_days_before_year_step(1);
    assert(days_before_year(0) == 0);
    assert(days_before_year(-9999) == 366 - 146097 * 25);
}

/// The day before a valid date other than the first is numbered one less.
pub proof fn lemma_previous_day(date: CivilDate)
    requires
        date.valid(),
        !date.is_first_representable(),
    ensures
        date.previous().valid(),
        day_number(date.previous()) == day_number(date) - 1,
{
    let y = date.year as int;
    if date.day > 1 {
    } else if date.month > 1 {
        assert(days_before_month(y, date.month as int) == days_before_month(y, date.month - 1)
            + days_in_month(y, date.month - 1));
    } else {
        lemma_days_before_year_step(y);
        lemma_december(y - 1);
        assert(days_before_month(y, 1) == 0);
    }
}

/// Weekdays follow one another: the day before a valid date other than the first falls
/// on the weekday before, Monday following Sunday.
pub proof fn law_weekdays_follow_one_another(date: CivilDate)
    requires
        date.valid(),
        !date.is_first_representable(),
    ensures
        weekday_of(date) == (weekday_of(date.previous()) + 1) % 7,
{
    lemma_previous_day(date);
}

/// What `jiff` makes of a date string, as `(year, month, day)`.
pub uninterp spec fn parsed_date(text: Seq<char>) -> Option<(i16, i8, i8)>;

/// `jiff::civil::Date::new`: succeeds exactly on the dates that `valid_ymd` describes,
/// as its documentation lists, and keeps the fields.
#[verifier::external_body]
pub fn date_new(year: i16, month: i8, day: i8) -> (r: Option<CivilDate>)
    ensures
        r is Some <==> valid_ymd(year as int, month as int, day as int),
        r matches Some(d) ==> d == (CivilDate { year, month, day }),
{
    match jiff::civil::Date::new(year, month, day) {
        Ok(d) => Some(CivilDate { year: d.year(), month: d.month(), day: d.day() }),
        Err(_) => None,
    }
}

/// `jiff::civil::Date::yesterday`: the date immediately preceding, which fails only on
/// the first representable date.
#[verifier::external_body]
pub fn date_yesterday(date: CivilDate) -> (r: Option<CivilDate>)
    requires
        date.valid(),
    ensures
        r is None <==> date.is_first_representable(),
        r matches Some(p) ==> p == date.previous() && p.valid(),
{
    let d = match jiff::civil::Date::new(date.year, date.month, date.day) {
        Ok(d) => d,
        Err(_) => return None,
    };
    match d.yesterday() {
        Ok(p) => Some(CivilDate { year: p.year(), month: p.month(), day: p.day() }),
        Err(_) => None,
    }
}

/// `jiff::civil::Date::weekday` then `Weekday::to_monday_zero_offset`: the weekday of the
/// proleptic Gregorian calendar, counted from Monday as `0`, as `weekday_of` computes it.
#[verifier::external_body]
pub fn weekday_offset(date: CivilDate) -> (r: i8)
    requires
        date.valid(),
    ensures
        r == weekday_of(date),
        0 <= r <= 6,
{
    match jiff::civil::Date::new(date.year, date.month, date.day) {
        Ok(d) => d.weekday().to_monday_zero_offset(),
        Err(_) => 0,
    }
}

/// `str::parse::<jiff::civil::Date>`: `jiff`'s reading of a date string. A date that it
/// returns is always a valid one.
#[verifier::external_body]
pub fn parse_date(text: &str) -> (r: Option<CivilDate>)
    ensures
        match parsed_date(text@) {
            Some((y, m, d)) => r == Some(CivilDate { year: y, month: m, day: d }) && valid_ymd(
                y as int,
                m as int,
                d as int,
            ),
            None => r is None,
        },
{
    match text.parse::<jiff::civil::Date>() {
        Ok(d) => Some(CivilDate { year: d.year(), month: d.month(), day: d.day() }),
        Err(_) => None,
    }
}

/// `jiff::civil::Time::new(hour, minute, 0, 0)`: succeeds exactly when the hour is in
/// `0..=23` and the minute in `0..=59`, as its documentation lists.
#[verifier::external_body]
pub fn time_exists(hour: i8, minute: i8) -> (r: bool)
    ensures
        r == (0 <= hour <= 23 && 0 <= minute <= 59),
{
    jiff::civil::Time::new(hour, minute, 0, 0).is_ok()
}

/// The civil reading of `x` is `date` at `hour:minute`, or later.
pub open spec fn reads_at_or_after(x: Moment, date: CivilDate, hour: i8, minute: i8) -> bool {
    ||| date.before(x.date)
    ||| x.date == date && (hour < x.hour || (hour == x.hour && minute <= x.minute))
}

/// `jiff::tz::TimeZone::to_zoned` (after `DateTime::new` with zero seconds): the zoned
/// timestamp for a civil date and clock time in `zone`, which it keeps (a clone of it). It
/// disambiguates as `jiff`'s "compatible" strategy does: an unambiguous time, or one in a
/// fold, reads back as the time asked for; one in a gap reads as a later time. It fails
/// only for a date and time that does not exist, or that lies so close to the ends of
/// `jiff`'s range that the zone's offset pushes it out, which no date with a year in
/// `-9998..=9998` does. The reading of the result is its timestamp moved by the zone's
/// offset at that instant, which `jiff` keeps within `-25:59:59..=25:59:59`. Whether a time
/// falls in a gap, and so the exact instant, depends on the zone's rules, which nothing
/// here can see.
#[verifier::external_body]
pub fn zoned_at(zone: &jiff::tz::TimeZone, date: CivilDate, hour: i8, minute: i8) -> (r: Option<
    Moment,
>)
    ensures
        r matches Some(m) ==> m.valid() && m.zone == *zone && reads_at_or_after(m, date, hour, minute)
            && reads_its_instant(m),
        date.valid() && 0 <= hour <= 23 && 0 <= minute <= 59 && -9998 <= date.year <= 9998 ==> r is Some,
{
    let dt = match jiff::civil::DateTime::new(date.year, date.month, date.day, hour, minute, 0, 0) {
        Ok(dt) => dt,
        Err(_) => return None,
    };
    match zone.to_zoned(dt) {
        Ok(z) => Some(Moment { instant: z.timestamp().as_nanosecond(), date: CivilDate { year: z.year(), month: z.month(), day: z.day() }, hour: z.hour(), minute: z.minute(), zone: z.time_zone().clone() }),
        Err(_) => None,
    }
}

/// `jiff::Zoned::checked_sub` with a `SignedDuration` of whole seconds: the instant moves
/// back by exactly that much, in the same zone; it fails exactly when that instant leaves
/// `jiff`'s range (`Timestamp::checked_add` fails only then, and `from_nanosecond` succeeds
/// on the instant of a valid moment). Its reading is the new timestamp moved by the zone's
/// offset, which `jiff` keeps within `-25:59:59..=25:59:59`.
#[verifier::external_body]
pub fn moment_minus_seconds(m: &Moment, seconds: i64) -> (r: Option<Moment>)
    requires
        m.valid(),
    ensures
        r is Some <==> instant_min() <= m.instant - seconds * 1_000_000_000 <= instant_max(),
        r matches Some(x) ==> x.instant == m.instant - seconds * 1_000_000_000 && x.valid() && x.zone
            == m.zone && reads_its_instant(x),
{
    let ts = match jiff::Timestamp::from_nanosecond(m.instant) {
        Ok(ts) => ts,
        Err(_) => return None,
    };
    match ts.to_zoned(m.zone.clone()).checked_sub(jiff::SignedDuration::from_secs(seconds)) {
        Ok(z) => Some(Moment { instant: z.timestamp().as_nanosecond(), date: CivilDate { year: z.year(), month: z.month(), day: z.day() }, hour: z.hour(), minute: z.minute(), zone: z.time_zone().clone() }),
        Err(_) => None,
    }
}

} // verus!
