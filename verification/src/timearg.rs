//! Reading the value of `--at`: a clock time, an explicit date and time, or an offset back from now.

use vstd::prelude::*;
use crate::text::{
    all_digits, chars_of, decimal_text, digit_char, digit_value, integer_value, trim_end, trim_start, zero_padded, decimal_value, find_char, i8_value, index_where, is_digit, lemma_index_where,
    lemma_push_digit, read_i8, slice_chars, string_of, trim_bounds, trimmed,
};
use crate::format::push_str;
use crate::time::{
    date_yesterday, instant_max, instant_min, moment_minus_seconds, parse_date, parsed_date,
    reads_at_or_after, reads_its_instant, time_exists, zoned_at, CivilDate, Moment,
};

verus! {

/// What reading an offset such as `1h30m` comes to.
#[derive(Clone, Copy, Debug, PartialEq, Eq, Structural)]
pub enum OffsetReading {
    /// The offset in seconds.
    Seconds(i64),
    /// Not an offset.
    Invalid,
    /// An offset whose seconds do not fit in an `i64`: reading it overflows.
    Overflow,
}

pub open spec fn unit_seconds(c: char) -> int {
    if c == 'h' {
        3600
    } else {
        60
    }
}

/// Reads `s` from left to right: a run of digits followed by `h` or `m` adds hours or
/// minutes to `total`, a trailing run of digits counts as minutes, and anything else is
/// invalid. A run that does not fit in an `i64` is invalid; a total that does not is an
/// overflow. `digits` is the run read so far, `matched` whether any amount was read.
pub open spec fn scan_offset(s: Seq<char>, total: int, digits: Seq<char>, matched: bool) -> OffsetReading
    decreases s.len(),
{
    if s.len() == 0 {
        if digits.len() > 0 {
            let v = decimal_value(digits);
            if v > i64::MAX {
                OffsetReading::Invalid
            } else if total + v * 60 > i64::MAX {
                OffsetReading::Overflow
            } else {
                OffsetReading::Seconds((total + v * 60) as i64)
            }
        } else if matched {
            OffsetReading::Seconds(total as i64)
        } else {
            OffsetReading::Invalid
        }
    } else {
        let c = s[0];
        if is_digit(c) {
            scan_offset(s.drop_first(), total, digits.push(c), matched)
        } else if (c == 'h' || c == 'm') && digits.len() > 0 {
            let v = decimal_value(digits);
            if v > i64::MAX {
                OffsetReading::Invalid
            } else if total + v * unit_seconds(c) > i64::MAX {
                OffsetReading::Overflow
            } else {
                scan_offset(s.drop_first(), total + v * unit_seconds(c), Seq::empty(), true)
            }
        } else {
            OffsetReading::Invalid
        }
    }
}

/// The reading of an offset such as `90m`, `1h30m`, `2h` or `45`.
pub open spec fn offset_reading(s: Seq<char>) -> OffsetReading {
    scan_offset(s, 0, Seq::empty(), false)
}

/// An offset spelled out from its parts: each of `runs` is a run of digits written
/// before its unit, `h` or `m`, and `tail` is a bare run of minutes, possibly empty.
pub open spec fn spelled_offset(runs: Seq<(Seq<char>, char)>, tail: Seq<char>) -> Seq<char>
    decreases runs.len(),
{
    if runs.len() == 0 {
        tail
    } else {
        runs[0].0.push(runs[0].1) + spelled_offset(runs.drop_first(), tail)
    }
}

/// Whether `runs` and `tail` are the parts of an offset: each run is one or more digits
/// closed by `h` or `m`, the tail is digits, and there is a run or a non-empty tail.
pub open spec fn offset_parts(runs: Seq<(Seq<char>, char)>, tail: Seq<char>) -> bool {
    &&& forall|i: int|
        0 <= i < runs.len() ==> (#[trigger] runs[i]).0.len() > 0 && all_digits(runs[i].0) && (
        runs[i].1 == 'h' || runs[i].1 == 'm')
    &&& all_digits(tail)
    &&& runs.len() > 0 || tail.len() > 0
}

/// The seconds that an offset's parts come to: 3600 for each hour, 60 for each minute,
/// the bare tail counting as minutes.
pub open spec fn parts_seconds(runs: Seq<(Seq<char>, char)>, tail: Seq<char>) -> int
    decreases runs.len(),
{
    if runs.len() == 0 {
        decimal_value(tail) as int * 60
    } else {
        decimal_value(runs[0].0) * unit_seconds(runs[0].1) + parts_seconds(runs.drop_first(), tail)
    }
}

proof fn lemma_parts_seconds_nonnegative(runs: Seq<(Seq<char>, char)>, tail: Seq<char>)
    ensures
        parts_seconds(runs, tail) >= 0,
    decreases runs.len(),
{
    if runs.len() > 0 {
        lemma_parts_seconds_nonnegative(runs.drop_first(), tail);
        let v = decimal_value(runs[0].0);
        if runs[0].1 == 'h' {
            assert(v * unit_seconds(runs[0].1) == v * 3600);
        } else {
            assert(v * unit_seconds(runs[0].1) == v * 60);
        }
    }
}

/// Reading digits only gathers them into the pending run.
proof fn lemma_scan_digits(d: Seq<char>, rest: Seq<char>, total: int, pending: Seq<char>, matched: bool)
    requires
        all_digits(d),
    ensures
        scan_offset(d + rest, total, pending, matched) == scan_offset(rest, total, pending + d, matched),
    decreases d.len(),
{
    if d.len() == 0 {
        assert(d + rest =~= rest);
        assert(pending + d =~= pending);
    } else {
        let s = d + rest;
        assert(s[0] == d[0]);
        assert(is_digit(d[0]));
        assert(s.drop_first() =~= d.drop_first() + rest);
        assert(pending.push(d[0]) + d.drop_first() =~= pending + d);
        lemma_scan_digits(d.drop_first(), rest, total, pending.push(d[0]), matched);
    }
}

/// Reading an offset's parts after `total` seconds have been summed adds their seconds,
/// while the sum fits in an `i64`.
proof fn lemma_scan_parts(runs: Seq<(Seq<char>, char)>, tail: Seq<char>, total: int, matched: bool)
    requires
        forall|i: int|
            0 <= i < runs.len() ==> (#[trigger] runs[i]).0.len() > 0 && all_digits(runs[i].0) && (
            runs[i].1 == 'h' || runs[i].1 == 'm'),
        all_digits(tail),
        matched || runs.len() > 0 || tail.len() > 0,
        0 <= total,
        total + parts_seconds(runs, tail) <= i64::MAX,
    ensures
        scan_offset(spelled_offset(runs, tail), total, Seq::empty(), matched) == OffsetReading::Seconds(
            (total + parts_seconds(runs, tail)) as i64,
        ),
    decreases runs.len(),
{
    if runs.len() == 0 {
        assert(tail + Seq::<char>::empty() =~= tail);
        assert(Seq::<char>::empty() + tail =~= tail);
        lemma_scan_digits(tail, Seq::empty(), total, Seq::empty(), matched);
    } else {
        let d = runs[0].0;
        let u = runs[0].1;
        let rest = runs.drop_first();
        let x = seq![u] + spelled_offset(rest, tail);
        assert(d.push(u) + spelled_offset(rest, tail) =~= d + x);
        lemma_scan_digits(d, x, total, Seq::empty(), matched);
        assert(Seq::<char>::empty() + d =~= d);
        assert(x[0] == u);
        assert(x.drop_first() =~= spelled_offset(rest, tail));
        lemma_parts_seconds_nonnegative(rest, tail);
        let v = decimal_value(d);
        if u == 'h' {
            assert(v * unit_seconds(u) == v * 3600);
        } else {
            assert(v * unit_seconds(u) == v * 60);
        }
        assert forall|i: int| 0 <= i < rest.len() implies (#[trigger] rest[i]).0.len() > 0 && all_digits(
            rest[i].0,
        ) && (rest[i].1 == 'h' || rest[i].1 == 'm') by {
            assert(rest[i] == runs[i + 1]);
        }
        lemma_scan_parts(rest, tail, total + v * unit_seconds(u), true);
    }
}

/// An offset's parts read as exactly their seconds, while those fit in an `i64`.
pub proof fn lemma_offset_reads_its_seconds(runs: Seq<(Seq<char>, char)>, tail: Seq<char>)
    requires
        offset_parts(runs, tail),
        parts_seconds(runs, tail) <= i64::MAX,
    ensures
        offset_reading(spelled_offset(runs, tail)) == OffsetReading::Seconds(parts_seconds(runs, tail) as i64),
{
    lemma_scan_parts(runs, tail, 0, false);
}

/// Reads `v[lo..hi]` as an offset.
pub fn read_offset(v: &Vec<char>, lo: usize, hi: usize) -> (r: OffsetReading)
    requires
        lo <= hi <= v.len(),
    ensures
        r == offset_reading(v@.subrange(lo as int, hi as int)),
{
    let ghost whole = v@.subrange(lo as int, hi as int);
    let mut total: i64 = 0;
    let mut value: u64 = 0;
    let mut big = false;
    let mut run: usize = 0;
    let mut matched = false;
    let ghost digits: Seq<char> = Seq::empty();
    let mut i = lo;
    while i < hi
        invariant
            lo <= i <= hi <= v.len(),
            whole == v@.subrange(lo as int, hi as int),
            offset_reading(whole) == scan_offset(v@.subrange(i as int, hi as int), total as int, digits, matched),
            run == digits.len(),
            run <= i - lo,
            big <==> decimal_value(digits) > i64::MAX,
            !big ==> value == decimal_value(digits),
            0 <= total,
        decreases hi - i,
    {
        let c = v[i];
        proof {
            let rest = v@.subrange(i as int, hi as int);
            assert(rest[0] == c);
            assert(rest.drop_first() =~= v@.subrange(i + 1, hi as int));
        }
        if '0' <= c && c <= '9' {
            let d: u64 = (c as u32 - '0' as u32) as u64;
            proof {
                lemma_push_digit(digits, c);
            }
            if !big {
                if value > (9223372036854775807u64 - d) / 10 {
                    assert(value * 10 + d > 9223372036854775807u64) by (nonlinear_arith)
                        requires
                            value > (9223372036854775807u64 - d) / 10,
                            d <= 9,
                    ;
                    big = true;
                } else {
                    assert(value * 10 + d <= 9223372036854775807u64) by (nonlinear_arith)
                        requires
                            value <= (9223372036854775807u64 - d) / 10,
                            d <= 9,
                    ;
                    value = value * 10 + d;
                }
            }
            proof {
                digits = digits.push(c);
            }
            run = run + 1;
        } else if (c == 'h' || c == 'm') && run > 0 {
            if big {
                return OffsetReading::Invalid;
            }
            let unit: i64 = if c == 'h' {
                3600
            } else {
                60
            };
            if (value as i128) * (unit as i128) + (total as i128) > 9223372036854775807i128 {
                return OffsetReading::Overflow;
            }
            total = total + (value as i64) * unit;
            value = 0;
            run = 0;
            matched = true;
            proof {
                digits = Seq::empty();
            }
        } else {
            return OffsetReading::Invalid;
        }
        i = i + 1;
    }
    if run > 0 {
        if big {
            return OffsetReading::Invalid;
        }
        if (value as i128) * 60 + (total as i128) > 9223372036854775807i128 {
            return OffsetReading::Overflow;
        }
        OffsetReading::Seconds(total + (value as i64) * 60)
    } else if matched {
        OffsetReading::Seconds(total)
    } else {
        OffsetReading::Invalid
    }
}

/// Why a value of `--at` was refused.
#[derive(Clone, Copy, Debug, PartialEq, Eq, Structural)]
pub enum TimeArgProblem {
    /// Nothing was given.
    Empty,
    /// A `-` not followed by an offset such as `90m`.
    BadOffset,
    /// The time lies outside what can be represented.
    OutOfRange,
    /// A date part that is not a date.
    BadDateTime,
    /// A clock part that is not `HH:MM`.
    BadClock,
    /// A clock time that does not exist, such as `25:00`.
    NoSuchClock,
    /// A civil time that the time zone cannot place.
    NotInZone,
}

/// A refused value of `--at`, with the text that the message quotes.
#[derive(Clone, Debug)]
pub struct TimeArgError {
    pub problem: TimeArgProblem,
    pub text: String,
}

/// The three forms that `--at` accepts.
#[derive(Clone, Copy, Debug, PartialEq, Eq, Structural)]
pub enum AtForm {
    /// `-1h30m`: this many seconds back from now.
    Back(i64),
    /// `2026-08-30 18:00`: a date and a clock time.
    At(CivilDate, i8, i8),
    /// `18:00`: a clock time, today or else yesterday.
    Clock(i8, i8),
}

/// `HH:MM`: two integers around the first `:`, which must name an existing time of day.
pub open spec fn clock_reading(s: Seq<char>) -> Result<(i8, i8), TimeArgProblem> {
    let k = index_where(s, |c: char| c == ':');
    if k >= s.len() {
        Err(TimeArgProblem::BadClock)
    } else {
        match (i8_value(s.take(k as int)), i8_value(s.skip(k as int + 1))) {
            (Some(h), Some(m)) => if 0 <= h <= 23 && 0 <= m <= 59 {
                Ok((h, m))
            } else {
                Err(TimeArgProblem::NoSuchClock)
            },
            _ => Err(TimeArgProblem::BadClock),
        }
    }
}

pub open spec fn is_date_time_separator(c: char) -> bool {
    c == 'T' || c == ' '
}

/// How a value of `--at` reads, before any time zone is consulted: its form, or the
/// problem with it and the text that the message quotes.
pub open spec fn at_reading(raw: Seq<char>) -> Result<AtForm, (TimeArgProblem, Seq<char>)> {
    let t = trimmed(raw);
    if t.len() == 0 {
        Err((TimeArgProblem::Empty, t))
    } else if t[0] == '-' {
        match offset_reading(t.drop_first()) {
            OffsetReading::Seconds(seconds) => Ok(AtForm::Back(seconds)),
            _ => Err((TimeArgProblem::BadOffset, t.drop_first())),
        }
    } else {
        let k = index_where(t, |c: char| is_date_time_separator(c));
        if k < t.len() {
            let date_part = trimmed(t.take(k as int));
            let time_part = trimmed(t.skip(k as int + 1));
            match parsed_date(date_part) {
                None => Err((TimeArgProblem::BadDateTime, t)),
                Some((y, m, d)) => match clock_reading(time_part) {
                    Ok((h, mi)) => Ok(AtForm::At(CivilDate { year: y, month: m, day: d }, h, mi)),
                    Err(p) => Err((p, time_part)),
                },
            }
        } else {
            match clock_reading(t) {
                Ok((h, mi)) => Ok(AtForm::Clock(h, mi)),
                Err(p) => Err((p, t)),
            }
        }
    }
}

proof fn lemma_one_digit(c: char)
    requires
        is_digit(c),
    ensures
        decimal_value(seq![c]) == digit_value(c),
{
    let t = seq![c];
    assert(t.drop_last() =~= Seq::<char>::empty());
    assert(t.last() == c);
    assert(decimal_value(Seq::<char>::empty()) == 0);
}

/// A number below 100 written with one or two digits (a leading zero allowed).
proof fn lemma_short_numeral(n: nat, width: nat)
    requires
        n < 100,
        1 <= width <= 2,
        n >= 10 ==> width == 2 || width == 1,
    ensures
        1 <= zero_padded(n, width).len() <= 2,
        all_digits(zero_padded(n, width)),
        decimal_value(zero_padded(n, width)) == n,
{
    let z = zero_padded(n, width);
    assert(digit_value(digit_char(n % 10)) == n % 10);
    assert(digit_value(digit_char(n / 10)) == n / 10);
    assert(digit_value('0') == 0);
    if n < 10 {
        assert(decimal_text(n) == seq![digit_char(n)]);
        if width == 2 {
            assert(z =~= seq!['0', digit_char(n)]);
            assert(z.drop_last() =~= seq!['0']);
            assert(seq!['0'].drop_last() =~= Seq::<char>::empty());
            lemma_one_digit('0');
            assert(decimal_value(z) == decimal_value(seq!['0']) * 10 + digit_value(digit_char(n)));
        } else {
            assert(z =~= seq![digit_char(n)]);
            assert(z.drop_last() =~= Seq::<char>::empty());
            lemma_one_digit(digit_char(n));
        }
    } else {
        assert(decimal_text(n / 10) == seq![digit_char(n / 10)]);
        assert(decimal_text(n) == seq![digit_char(n / 10)].push(digit_char(n % 10)));
        assert(z =~= seq![digit_char(n / 10), digit_char(n % 10)]);
        assert(z.drop_last() =~= seq![digit_char(n / 10)]);
        assert(seq![digit_char(n / 10)].drop_last() =~= Seq::<char>::empty());
        lemma_one_digit(digit_char(n / 10));
        assert(decimal_value(z) == (n / 10) * 10 + n % 10);
    }
}

/// A clock time written as its hour and minute, each with one or two digits, around a
/// `:` (such as `9:30`, `09:30` or `18:05`), reads as that hour and minute.
pub proof fn law_clock_values_read_as_written(hour: i8, minute: i8, hour_width: nat, minute_width: nat)
    requires
        0 <= hour <= 23,
        0 <= minute <= 59,
        1 <= hour_width <= 2,
        1 <= minute_width <= 2,
    ensures
        at_reading(zero_padded(hour as nat, hour_width) + seq![':'] + zero_padded(minute as nat, minute_width))
            == Ok::<AtForm, (TimeArgProblem, Seq<char>)>(AtForm::Clock(hour, minute)),
{
    let a = zero_padded(hour as nat, hour_width);
    let b = zero_padded(minute as nat, minute_width);
    lemma_short_numeral(hour as nat, hour_width);
    lemma_short_numeral(minute as nat, minute_width);
    let s = a + seq![':'] + b;
    assert(forall|j: int| 0 <= j < s.len() ==> (is_digit(#[trigger] s[j]) || s[j] == ':')) by {
        assert forall|j: int| 0 <= j < s.len() implies (is_digit(#[trigger] s[j]) || s[j] == ':') by {
            if j < a.len() {
                assert(s[j] == a[j]);
            } else if j > a.len() {
                assert(s[j] == b[j - a.len() - 1]);
            }
        }
    }
    assert(is_digit(s[0]));
    assert(is_digit(s.last())) by {
        assert(s.last() == s[s.len() - 1]);
    }
    assert(trim_start(s) == s);
    assert(trim_end(s) == s);
    assert(trimmed(s) == s);
    lemma_index_where(s, |c: char| is_date_time_separator(c), s.len() as int);
    assert(s[a.len() as int] == ':');
    assert forall|j: int| 0 <= j < a.len() implies !((|c: char| c == ':')(#[trigger] s[j])) by {
        assert(s[j] == a[j]);
    }
    lemma_index_where(s, |c: char| c == ':', a.len() as int);
    assert(s.take(a.len() as int) =~= a);
    assert(s.skip(a.len() as int + 1) =~= b);
    assert(!(a[0] == '+' || a[0] == '-'));
    assert(!(b[0] == '+' || b[0] == '-'));
    assert(integer_value(a) == Some(hour as int));
    assert(integer_value(b) == Some(minute as int));
    assert(i8_value(a) == Some(hour));
    assert(i8_value(b) == Some(minute));
    assert(clock_reading(s) == Ok::<(i8, i8), TimeArgProblem>((hour, minute)));
}

/// Whether reading `raw` as an offset would overflow the `i64` seconds it is summed in.
pub open spec fn at_overflows(raw: Seq<char>) -> bool {
    let t = trimmed(raw);
    t.len() > 0 && t[0] == '-' && offset_reading(t.drop_first()) == OffsetReading::Overflow
}

fn refusal(problem: TimeArgProblem, v: &Vec<char>) -> (e: TimeArgError)
    ensures
        e.problem == problem,
        e.text@ == v@,
{
    TimeArgError { problem, text: string_of(v) }
}

/// Reads `HH:MM`.
fn read_clock(v: &Vec<char>) -> (r: Result<(i8, i8), TimeArgProblem>)
    ensures
        r == clock_reading(v@),
{
    let n = v.len();
    let k = find_char(v, 0, n, ':');
    proof {
        assert(v@.subrange(0, n as int) =~= v@);
    }
    if k >= n {
        return Err(TimeArgProblem::BadClock);
    }
    let hour = read_i8(v, 0, k);
    let minute = read_i8(v, k + 1, n);
    proof {
        assert(v@.subrange(0, k as int) =~= v@.take(k as int));
        assert(v@.subrange(k + 1, n as int) =~= v@.skip(k + 1));
    }
    match (hour, minute) {
        (Some(h), Some(m)) => {
            if time_exists(h, m) {
                Ok((h, m))
            } else {
                Err(TimeArgProblem::NoSuchClock)
            }
        },
        _ => Err(TimeArgProblem::BadClock),
    }
}

/// The index of the first `T` or space in `v`, or `v.len()`.
fn find_separator(v: &Vec<char>) -> (k: usize)
    ensures
        k == index_where(v@, |c: char| is_date_time_separator(c)),
        k <= v.len(),
{
    let mut i: usize = 0;
    while i < v.len() && v[i] != 'T' && v[i] != ' '
        invariant
            i <= v.len(),
            forall|j: int| 0 <= j < i ==> !is_date_time_separator(#[trigger] v@[j]),
        decreases v.len() - i,
    {
        i = i + 1;
    }
    proof {
        lemma_index_where(v@, |c: char| is_date_time_separator(c), i as int);
    }
    i
}

/// Reads a value of `--at` into its form, before any time zone is consulted.
pub fn read_at(raw: &str) -> (r: Result<AtForm, TimeArgError>)
    requires
        !at_overflows(raw@),
    ensures
        match at_reading(raw@) {
            Ok(form) => r == Ok::<AtForm, TimeArgError>(form),
            Err((p, text)) => r matches Err(e) && e.problem == p && e.text@ == text,
        },
        r matches Ok(AtForm::At(date, h, m)) ==> date.valid(),
{
    let all = chars_of(raw);
    let (lo, hi) = trim_bounds(&all);
    let t = slice_chars(&all, lo, hi);
    if t.len() == 0 {
        return Err(refusal(TimeArgProblem::Empty, &t));
    }
    if t[0] == '-' {
        let n = t.len();
        proof {
            assert(t@.subrange(1, n as int) =~= t@.drop_first());
        }
        return match read_offset(&t, 1, n) {
            OffsetReading::Seconds(seconds) => Ok(AtForm::Back(seconds)),
            _ => {
                let rest = slice_chars(&t, 1, n);
                Err(refusal(TimeArgProblem::BadOffset, &rest))
            },
        };
    }
    let k = find_separator(&t);
    if k < t.len() {
        let head = slice_chars(&t, 0, k);
        let tail = slice_chars(&t, k + 1, t.len());
        proof {
            assert(head@ =~= t@.take(k as int));
            assert(tail@ =~= t@.skip(k + 1));
        }
        let (dlo, dhi) = trim_bounds(&head);
        let date_part = slice_chars(&head, dlo, dhi);
        let (tlo, thi) = trim_bounds(&tail);
        let time_part = slice_chars(&tail, tlo, thi);
        let date = match parse_date(string_of(&date_part).as_str()) {
            Some(d) => d,
            None => return Err(refusal(TimeArgProblem::BadDateTime, &t)),
        };
        return match read_clock(&time_part) {
            Ok((h, m)) => Ok(AtForm::At(date, h, m)),
            Err(p) => Err(refusal(p, &time_part)),
        };
    }
    match read_clock(&t) {
        Ok((h, m)) => Ok(AtForm::Clock(h, m)),
        Err(p) => Err(refusal(p, &t)),
    }
}

/// Whether resolving `raw` would overflow while summing its offset; callers refuse such a
/// value before they resolve it.
pub fn overflows(raw: &str) -> (r: bool)
    ensures
        r == at_overflows(raw@),
{
    let all = chars_of(raw);
    let (lo, hi) = trim_bounds(&all);
    if lo < hi && all[lo] == '-' {
        proof {
            let t = all@.subrange(lo as int, hi as int);
            assert(t.drop_first() =~= all@.subrange(lo + 1, hi as int));
        }
        read_offset(&all, lo + 1, hi) == OffsetReading::Overflow
    } else {
        false
    }
}

/// `x` is a placement by `jiff` of `date` at `hour:minute` in `now`'s time zone: a valid
/// moment in that zone that reads that date and time, or a later one when the time falls
/// in a gap, and whose reading is its instant moved by an offset that `jiff` allows.
pub open spec fn placed(x: Moment, date: CivilDate, hour: i8, minute: i8, now: Moment) -> bool {
    x.valid() && x.zone == now.zone && reads_at_or_after(x, date, hour, minute) && reads_its_instant(x)
}

/// What resolving `raw` against `now` may give. A refused value is refused with the
/// problem and text that `at_reading` gives. An offset lands exactly that many seconds
/// before `now`, in `now`'s zone, and succeeds exactly when that instant is in `jiff`'s
/// range. A date and time is placed in `now`'s zone. A clock time is placed on `now`'s
/// date and on the day before, and those placements settle it as `settled` says: today's
/// when it is not after `now`, else yesterday's. Away from the ends of `jiff`'s
/// range a date or clock time always resolves.
pub open spec fn resolution(raw: Seq<char>, now: Moment, r: Result<Moment, TimeArgError>) -> bool {
    match at_reading(raw) {
        Err((p, text)) => r matches Err(e) && e.problem == p && e.text@ == text,
        Ok(AtForm::Back(seconds)) => {
            &&& r is Ok <==> instant_min() <= now.instant - seconds * 1_000_000_000 <= instant_max()
            &&& match r {
                Ok(m) => m.instant == now.instant - seconds * 1_000_000_000 && m.valid() && m.zone
                    == now.zone && reads_its_instant(m),
                Err(e) => e.problem == TimeArgProblem::OutOfRange && e.text@ == trimmed(raw),
            }
        },
        Ok(AtForm::At(date, h, m)) => {
            &&& -9998 <= date.year <= 9998 ==> r is Ok
            &&& match r {
                Ok(x) => placed(x, date, h, m, now),
                Err(e) => e.problem == TimeArgProblem::NotInZone && e.text@ == trimmed(raw),
            }
        },
        Ok(AtForm::Clock(h, m)) => {
            &&& -9997 <= now.date.year <= 9998 ==> r is Ok
            &&& exists|today: Option<Moment>, yesterday: Result<Moment, TimeArgProblem>|
                #[trigger] placed_today(today, h, m, now) && #[trigger] placed_yesterday(yesterday, h, m, now)
                    && settled(today, yesterday, now, trimmed(raw), r)
        },
    }
}

/// `today` is what placing `hour:minute` on `now`'s date in `now`'s zone gave: a placement,
/// or nothing, which never happens for a year in `-9998..=9998`.
pub open spec fn placed_today(today: Option<Moment>, hour: i8, minute: i8, now: Moment) -> bool {
    &&& today matches Some(x) ==> placed(x, now.date, hour, minute, now)
    &&& -9998 <= now.date.year <= 9998 ==> today is Some
}

/// `yesterday` is what placing `hour:minute` on the day before `now`'s date in `now`'s zone
/// gave: a placement, or the problem that stopped it (the first representable date has no
/// day before, and the zone may fail to place the time), which never happens for a year of
/// `now` in `-9997..=9998`.
pub open spec fn placed_yesterday(yesterday: Result<Moment, TimeArgProblem>, hour: i8, minute: i8, now: Moment) -> bool {
    &&& match yesterday {
        Ok(y) => placed(y, now.date.previous(), hour, minute, now),
        Err(p) => p == TimeArgProblem::NotInZone || (p == TimeArgProblem::OutOfRange
            && now.date.is_first_representable()),
    }
    &&& -9997 <= now.date.year <= 9998 ==> yesterday is Ok
}

/// What a clock time comes to once it has been placed on `now`'s date as `today` and on
/// the day before as `yesterday`: with no placement today, a refusal; today's placement
/// when it is not after `now`; otherwise yesterday's, or its refusal. `text` is what a
/// refusal quotes.
pub open spec fn settled(
    today: Option<Moment>,
    yesterday: Result<Moment, TimeArgProblem>,
    now: Moment,
    text: Seq<char>,
    r: Result<Moment, TimeArgError>,
) -> bool {
    match today {
        None => r matches Err(e) && e.problem == TimeArgProblem::NotInZone && e.text@ == text,
        Some(x) => if x.instant <= now.instant {
            r == Ok::<Moment, TimeArgError>(x)
        } else {
            match yesterday {
                Ok(y) => r == Ok::<Moment, TimeArgError>(y),
                Err(p) => r matches Err(e) && e.problem == p && e.text@ == text,
            }
        },
    }
}

/// Settles the clock time in `raw` from its placement on `now`'s date, `today` (`None`
/// where the zone could not place it), and on the day before, `yesterday`: today's is the
/// answer unless it is still ahead of `now`, and then yesterday's is.
pub fn settle_clock(
    raw: &str,
    today: Option<Moment>,
    yesterday: Result<Moment, TimeArgProblem>,
    now: &Moment,
) -> (r: Result<Moment, TimeArgError>)
    ensures
        settled(today, yesterday, *now, trimmed(raw@), r),
{
    let all = chars_of(raw);
    let (lo, hi) = trim_bounds(&all);
    let t = slice_chars(&all, lo, hi);
    let today = match today {
        Some(x) => x,
        None => return Err(refusal(TimeArgProblem::NotInZone, &t)),
    };
    // A time later than now almost always means the shift that just ended overnight.
    if keep_today(&today, now) {
        return Ok(today);
    }
    match yesterday {
        Ok(y) => Ok(y),
        Err(p) => Err(refusal(p, &t)),
    }
}

/// Places `hour:minute` on the day before `now`'s date, in `now`'s zone.
fn place_yesterday(hour: i8, minute: i8, now: &Moment) -> (r: Result<Moment, TimeArgProblem>)
    requires
        now.valid(),
        0 <= hour <= 23,
        0 <= minute <= 59,
    ensures
        placed_yesterday(r, hour, minute, *now),
{
    let day = match date_yesterday(now.date) {
        Some(d) => d,
        None => return Err(TimeArgProblem::OutOfRange),
    };
    match zoned_at(&now.zone, day, hour, minute) {
        Some(x) => Ok(x),
        None => Err(TimeArgProblem::NotInZone),
    }
}

/// Whether a clock time placed on today's date, at `today`, stays today: it does unless
/// it is still ahead of `now`.
pub fn keep_today(today: &Moment, now: &Moment) -> (r: bool)
    ensures
        r == (today.instant <= now.instant),
{
    today.instant <= now.instant
}

/// Resolves the value of `--at` against `now`.
///
/// Accepted forms:
///   `18:00`              a clock time today, or yesterday when that is still ahead of now
///   `2026-08-30 18:00`   an explicit date and time (a `T` separator also works)
///   `-1h30m`             an offset back from now
pub fn resolve(raw: &str, now: &Moment) -> (r: Result<Moment, TimeArgError>)
    requires
        now.valid(),
        !at_overflows(raw@),
    ensures
        resolution(raw@, *now, r),
{
    let form = read_at(raw)?;
    let all = chars_of(raw);
    let (lo, hi) = trim_bounds(&all);
    let t = slice_chars(&all, lo, hi);
    match form {
        AtForm::Back(seconds) => match moment_minus_seconds(now, seconds) {
            Some(m) => Ok(m),
            None => Err(refusal(TimeArgProblem::OutOfRange, &t)),
        },
        AtForm::At(date, h, m) => match zoned_at(&now.zone, date, h, m) {
            Some(x) => Ok(x),
            None => Err(refusal(TimeArgProblem::NotInZone, &t)),
        },
        AtForm::Clock(h, m) => {
            let today = zoned_at(&now.zone, now.date, h, m);
            let yesterday = place_yesterday(h, m, now);
            let r = settle_clock(raw, today, yesterday, now);
            proof {
                assert(placed_today(today, h, m, *now));
            }
            r
        },
    }
}

/// An offset written as runs of digits closed by `h` or `m`, then perhaps a bare run of
/// minutes, resolves to exactly its seconds before `now`, in `now`'s zone, and so never
/// later than `now`, whenever that instant is one that `jiff` represents.
pub proof fn law_offset_lands_its_seconds_back(
    raw: Seq<char>,
    runs: Seq<(Seq<char>, char)>,
    tail: Seq<char>,
    now: Moment,
    r: Result<Moment, TimeArgError>,
)
    requires
        now.valid(),
        offset_parts(runs, tail),
        trimmed(raw) == seq!['-'] + spelled_offset(runs, tail),
        parts_seconds(runs, tail) <= i64::MAX,
        instant_min() <= now.instant - parts_seconds(runs, tail) * 1_000_000_000,
        resolution(raw, now, r),
    ensures
        r matches Ok(m) && m.instant == now.instant - parts_seconds(runs, tail) * 1_000_000_000
            && m.zone == now.zone && m.instant <= now.instant,
{
    lemma_offset_reads_its_seconds(runs, tail);
    lemma_parts_seconds_nonnegative(runs, tail);
    let t = trimmed(raw);
    assert(t[0] == '-');
    assert(t.drop_first() =~= spelled_offset(runs, tail));
    assert(at_reading(raw) == Ok::<AtForm, (TimeArgProblem, Seq<char>)>(AtForm::Back(parts_seconds(runs, tail) as i64)));
}

/// Two offsets whose parts come to the same seconds, such as `-1h30m`, `-90m` and `-90`,
/// resolve alike against the same `now`: both succeed or both fail, and on success at
/// the same instant in the same zone.
pub proof fn law_equal_offsets_resolve_alike(
    raw1: Seq<char>,
    runs1: Seq<(Seq<char>, char)>,
    tail1: Seq<char>,
    raw2: Seq<char>,
    runs2: Seq<(Seq<char>, char)>,
    tail2: Seq<char>,
    now: Moment,
    r1: Result<Moment, TimeArgError>,
    r2: Result<Moment, TimeArgError>,
)
    requires
        offset_parts(runs1, tail1),
        offset_parts(runs2, tail2),
        trimmed(raw1) == seq!['-'] + spelled_offset(runs1, tail1),
        trimmed(raw2) == seq!['-'] + spelled_offset(runs2, tail2),
        parts_seconds(runs1, tail1) == parts_seconds(runs2, tail2),
        parts_seconds(runs1, tail1) <= i64::MAX,
        resolution(raw1, now, r1),
        resolution(raw2, now, r2),
    ensures
        r1 is Ok <==> r2 is Ok,
        r1 matches Ok(a) ==> r2 matches Ok(b) && a.instant == b.instant && a.zone == b.zone,
{
    lemma_offset_reads_its_seconds(runs1, tail1);
    lemma_offset_reads_its_seconds(runs2, tail2);
    let t1 = trimmed(raw1);
    let t2 = trimmed(raw2);
    assert(t1[0] == '-');
    assert(t2[0] == '-');
    assert(t1.drop_first() =~= spelled_offset(runs1, tail1));
    assert(t2.drop_first() =~= spelled_offset(runs2, tail2));
    assert(at_reading(raw1) == at_reading(raw2));
}

/// The message that refuses a value of `--at`.
pub open spec fn time_arg_message(problem: TimeArgProblem, text: Seq<char>) -> Seq<char> {
    match problem {
        TimeArgProblem::Empty => "--at には 18:00、2026-08-30 18:00、-90m のような値を指定してください"@,
        TimeArgProblem::BadOffset => text + " は 90m、1h30m、2h のような差分ではありません"@,
        TimeArgProblem::OutOfRange => text + " は扱える範囲を超えています"@,
        TimeArgProblem::BadDateTime => text + " は 2026-08-30 18:00 のような日時ではありません"@,
        TimeArgProblem::BadClock => text + " は 18:00 のような時刻ではありません"@,
        TimeArgProblem::NoSuchClock => text + " は存在しない時刻です"@,
        TimeArgProblem::NotInZone => text + " はこのタイムゾーンに存在しない時刻です"@,
    }
}

impl TimeArgError {
    pub fn message(&self) -> (s: String)
        ensures
            s@ == time_arg_message(self.problem, self.text@),
    {
        let mut out = String::new();
        match self.problem {
            TimeArgProblem::Empty => {
                push_str(&mut out, "--at には 18:00、2026-08-30 18:00、-90m のような値を指定してください");
            },
            TimeArgProblem::BadOffset => {
                push_str(&mut out, self.text.as_str());
                push_str(&mut out, " は 90m、1h30m、2h のような差分ではありません");
            },
            TimeArgProblem::OutOfRange => {
                push_str(&mut out, self.text.as_str());
                push_str(&mut out, " は扱える範囲を超えています");
            },
            TimeArgProblem::BadDateTime => {
                push_str(&mut out, self.text.as_str());
                push_str(&mut out, " は 2026-08-30 18:00 のような日時ではありません");
            },
            TimeArgProblem::BadClock => {
                push_str(&mut out, self.text.as_str());
                push_str(&mut out, " は 18:00 のような時刻ではありません");
            },
            TimeArgProblem::NoSuchClock => {
                push_str(&mut out, self.text.as_str());
                push_str(&mut out, " は存在しない時刻です");
            },
            TimeArgProblem::NotInZone => {
                push_str(&mut out, self.text.as_str());
                push_str(&mut out, " はこのタイムゾーンに存在しない時刻です");
            },
        }
        out
    }
}

} // verus!
