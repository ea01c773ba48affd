//! How durations, clock readings, dates and titles are written on screen.

use vstd::prelude::*;
use crate::text::{opt_str_view, decimal_text, push_decimal, push_zero_padded, zero_padded};
use crate::time::{weekday_of, weekday_offset, CivilDate, Moment, Span};

verus! {

/// The display width of a string in terminal columns, as `unicode-width` measures it.
pub uninterp spec fn display_width(text: Seq<char>) -> usize;

/// `UnicodeWidthStr::width` of `unicode-width`: the columns that `text` occupies on a
/// terminal (East Asian wide characters take two).
#[verifier::external_body]
fn unicode_width_of(text: &str) -> (w: usize)
    ensures
        w == display_width(text@),
{
    unicode_width::UnicodeWidthStr::width(text)
}

/// The whole seconds of a span that a duration shows: a negative span counts as none.
pub open spec fn shown_seconds(nanos: int) -> nat {
    if nanos < 0 {
        0
    } else {
        (nanos / 1_000_000_000) as nat
    }
}

/// `2h35m`, or `45m` under an hour.
pub open spec fn duration_text(nanos: int) -> Seq<char> {
    let seconds = shown_seconds(nanos);
    let hours = seconds / 3600;
    let minutes = (seconds % 3600) / 60;
    if hours > 0 {
        decimal_text(hours) + seq!['h'] + zero_padded(minutes, 2) + seq!['m']
    } else {
        decimal_text(minutes) + seq!['m']
    }
}

/// `HH:MM`.
pub open spec fn clock_text(hour: int, minute: int) -> Seq<char> {
    zero_padded(hour as nat, 2) + seq![':'] + zero_padded(minute as nat, 2)
}

/// `YYYY-MM-DD` as `jiff` prints a date: a negative year gets `-00` before its four digits.
pub open spec fn iso_date_text(date: CivilDate) -> Seq<char> {
    let year = date.year as int;
    let sign = if year < 0 { seq!['-', '0', '0'] } else { Seq::<char>::empty() };
    let magnitude: nat = if year < 0 { (-year) as nat } else { year as nat };
    sign + zero_padded(magnitude, 4) + seq!['-'] + zero_padded(date.month as nat, 2) + seq!['-']
        + zero_padded(date.day as nat, 2)
}

/// The one-character Japanese name of a weekday counted from Monday as `0`.
pub open spec fn weekday_name(offset: int) -> char {
    if offset == 0 {
        '月'
    } else if offset == 1 {
        '火'
    } else if offset == 2 {
        '水'
    } else if offset == 3 {
        '木'
    } else if offset == 4 {
        '金'
    } else if offset == 5 {
        '土'
    } else {
        '日'
    }
}

/// `2026-08-30 (日)`.
pub open spec fn date_line(date: CivilDate) -> Seq<char> {
    iso_date_text(date) + seq![' ', '('] + seq![
        weekday_name(weekday_of(date)),
    ] + seq![')']
}

/// A date's line names its weekday in Japanese, counted from Monday through the week:
/// 月火水木金土日.
pub proof fn law_date_line_names_the_weekday(date: CivilDate)
    ensures
        date_line(date) == iso_date_text(date) + seq![' ', '(', "月火水木金土日"@[weekday_of(date)], ')'],
{
    reveal_strlit("月火水木金土日");
    let w = weekday_of(date);
    assert(0 <= w < 7);
    assert(date_line(date) =~= iso_date_text(date) + seq![' ', '(', weekday_name(w), ')']);
}

pub open spec fn spaces(n: nat) -> Seq<char> {
    Seq::new(n, |i: int| ' ')
}

/// `text` followed by enough spaces to fill `width` columns.
pub open spec fn padded(text: Seq<char>, width: nat) -> Seq<char> {
    let w = display_width(text) as nat;
    text + spaces(if w < width { (width - w) as nat } else { 0 })
}

/// `label / note`, or the label alone when the note is absent or empty.
pub open spec fn title_text(label: Seq<char>, note: Option<Seq<char>>) -> Seq<char> {
    match note {
        Some(n) => if n.len() > 0 {
            label + seq![' ', '/', ' '] + n
        } else {
            label
        },
        None => label,
    }
}

pub fn push_str(out: &mut String, s: &str)
    ensures
        final(out)@ == old(out)@ + s@,
{
    out.append(s);
}

/// Appends `n` spaces.
pub fn push_spaces(out: &mut String, n: usize)
    ensures
        final(out)@ == old(out)@ + spaces(n as nat),
{
    let ghost start = out@;
    let mut i: usize = 0;
    while i < n
        invariant
            i <= n,
            out@ == start + spaces(i as nat),
        decreases n - i,
    {
        out.push(' ');
        i = i + 1;
        proof {
            assert(out@ =~= start + spaces(i as nat));
        }
    }
}

/// Renders a span as `2h35m`, or `45m` when it is under an hour; a negative span shows as `0m`.
pub fn duration(value: Span) -> (s: String)
    requires
        value.valid(),
    ensures
        s@ == duration_text(value.nanos as int),
{
    let seconds: u64 = if value.nanos < 0 {
        0
    } else {
        (value.nanos / 1_000_000_000) as u64
    };
    let hours = seconds / 3600;
    let minutes = (seconds % 3600) / 60;
    let mut out = String::new();
    if hours > 0 {
        push_decimal(&mut out, hours);
        out.push('h');
        push_zero_padded(&mut out, minutes, 2);
        out.push('m');
    } else {
        push_decimal(&mut out, minutes);
        out.push('m');
    }
    out
}

/// `HH:MM` of a zoned timestamp.
pub fn clock(at: &Moment) -> (s: String)
    requires
        at.valid(),
    ensures
        s@ == clock_text(at.hour as int, at.minute as int),
{
    let mut out = String::new();
    push_zero_padded(&mut out, at.hour as u64, 2);
    out.push(':');
    push_zero_padded(&mut out, at.minute as u64, 2);
    proof {
        assert(out@ =~= clock_text(at.hour as int, at.minute as int));
    }
    out
}

fn weekday(offset: i8) -> (c: char)
    ensures
        c == weekday_name(offset as int),
{
    if offset == 0 {
        '月'
    } else if offset == 1 {
        '火'
    } else if offset == 2 {
        '水'
    } else if offset == 3 {
        '木'
    } else if offset == 4 {
        '金'
    } else if offset == 5 {
        '土'
    } else {
        '日'
    }
}

/// Appends a date as `jiff` prints it, `YYYY-MM-DD`.
pub fn push_iso_date(out: &mut String, day: CivilDate)
    requires
        day.valid(),
    ensures
        final(out)@ == old(out)@ + iso_date_text(day),
{
    let ghost start = out@;
    let magnitude: u64 = if day.year < 0 {
        out.push('-');
        out.push('0');
        out.push('0');
        (0 - day.year as i64) as u64
    } else {
        day.year as u64
    };
    push_zero_padded(out, magnitude, 4);
    out.push('-');
    push_zero_padded(out, day.month as u64, 2);
    out.push('-');
    push_zero_padded(out, day.day as u64, 2);
    proof {
        assert(out@ =~= start + iso_date_text(day));
    }
}

/// `2026-08-30 (日)`: the date and its weekday.
pub fn date(day: CivilDate) -> (s: String)
    requires
        day.valid(),
    ensures
        s@ == date_line(day),
{
    date_on(day, weekday_offset(day))
}

/// `2026-08-30 (日)`: the date and the weekday whose offset from Monday is `offset`.
pub fn date_on(day: CivilDate, offset: i8) -> (s: String)
    requires
        day.valid(),
    ensures
        s@ == iso_date_text(day) + seq![' ', '(', weekday_name(offset as int), ')'],
{
    let mut out = String::new();
    push_iso_date(&mut out, day);
    out.push(' ');
    out.push('(');
    out.push(weekday(offset));
    out.push(')');
    proof {
        assert(out@ =~= iso_date_text(day) + seq![' ', '(', weekday_name(offset as int), ')']);
    }
    out
}

/// The display width of `text` in terminal columns.
pub fn width(text: &str) -> (w: usize)
    ensures
        w == display_width(text@),
{
    unicode_width_of(text)
}

/// Pads to a display width, so CJK labels line up in the same column as ASCII ones.
pub fn pad(text: &str, width: usize) -> (s: String)
    ensures
        s@ == padded(text@, width as nat),
{
    pad_from(text, unicode_width_of(text), width)
}

/// Pads `text`, which occupies `text_width` columns, with spaces up to `width` columns.
pub fn pad_from(text: &str, text_width: usize, width: usize) -> (s: String)
    ensures
        s@ == text@ + spaces(if text_width < width { (width - text_width) as nat } else { 0 }),
{
    let padding: usize = if text_width < width { width - text_width } else { 0 };
    let mut out = String::new();
    push_str(&mut out, text);
    push_spaces(&mut out, padding);
    out
}

/// `label / note`, or just the label when no note was given.
pub fn title(label: &str, note: Option<&str>) -> (s: String)
    ensures
        s@ == title_text(label@, opt_str_view(note)),
{
    let mut out = String::new();
    push_str(&mut out, label);
    match note {
        Some(n) => {
            if !n.is_empty() {
                push_str(&mut out, " / ");
                push_str(&mut out, n);
            }
        },
        None => {},
    }
    proof {
        reveal_strlit(" / ");
        assert(out@ =~= title_text(label@, opt_str_view(note)));
    }
    out
}

} // verus!
