//! The `log` report: which records a range selects, and the lines that show them.

use vstd::prelude::*;
use crate::format::{date, date_line, display_width, push_spaces, spaces, width, clock, clock_text, duration, duration_text, pad, padded, push_str, title, title_text};
use crate::text::{string_of, lemma_lex_asymmetric, lemma_lex_irreflexive, slice_chars, chars_of, compare_chars, lex_lt, opt_str_view, opt_string_view, KeyOrder};
use crate::store::record_name;
use crate::paths::{char_vecs, seq_eq, strings, expand, expand_text, opt_home, same, same_path};
use crate::store::{Entry, Session};
use crate::commands::clock::{running_line, running_line_text};
use crate::time::Moment;
use crate::time::{Span, duration_fits, date_new, date_yesterday, parse_date, parsed_date, weekday_offset, weekday_of, day_number, lemma_first_date_is_monday, lemma_previous_day, CivilDate};

verus! {

/// Which records `log` shows, from its flags (with none set, today's).
#[derive(Clone, Copy, Debug, Default)]
pub struct Range {
    pub week: bool,
    pub month: bool,
    pub all: bool,
}

/// Why the start of a range could not be worked out.
#[derive(Clone, Debug)]
pub enum RangeError {
    /// `--since` is not a date; the text given.
    BadSince(String),
    /// The first of the month is not a date.
    NoMonthStart,
    /// A day before the start of the week is not a date.
    NoWeekStart,
}

pub open spec fn range_error_message(e: RangeError) -> Seq<char> {
    match e {
        RangeError::BadSince(text) => "--since "@ + text@ + " は 2026-08-01 のような日付ではありません"@,
        RangeError::NoMonthStart => "月初を計算できませんでした"@,
        RangeError::NoWeekStart => "週初を計算できませんでした"@,
    }
}

impl RangeError {
    pub fn message(&self) -> (s: String)
        ensures
            s@ == range_error_message(*self),
    {
        let mut out = String::new();
        match self {
            RangeError::BadSince(text) => {
                push_str(&mut out, "--since ");
                push_str(&mut out, text.as_str());
                push_str(&mut out, " は 2026-08-01 のような日付ではありません");
            },
            RangeError::NoMonthStart => push_str(&mut out, "月初を計算できませんでした"),
            RangeError::NoWeekStart => push_str(&mut out, "週初を計算できませんでした"),
        }
        out
    }
}

/// The date `n` days before `d`, stepping back one day at a time; `None` when a step
/// would go before the first representable date.
pub open spec fn days_before(d: CivilDate, n: nat) -> Option<CivilDate>
    decreases n,
{
    if n == 0 {
        Some(d)
    } else {
        match days_before(d, (n - 1) as nat) {
            Some(p) => if p.is_first_representable() {
                None
            } else {
                Some(p.previous())
            },
            None => None,
        }
    }
}

/// The first day that `log` shows, from `--since` (a date as `jiff` reads it), `--all`
/// (no lower bound), `--month` (the first of this month), `--week` (this week's Monday) or
/// nothing (today). Only a `--since` that is no date is refused.
pub fn start_of_range(range: Range, since: Option<&str>, today: CivilDate) -> (r: Result<Option<CivilDate>, RangeError>)
    requires
        today.valid(),
    ensures
        match since {
            Some(text) => match parsed_date(text@) {
                Some((y, m, d)) => r == Ok::<Option<CivilDate>, RangeError>(Some(CivilDate { year: y, month: m, day: d })),
                None => r matches Err(RangeError::BadSince(t)) && t@ == text@,
            },
            None => if range.all {
                r == Ok::<Option<CivilDate>, RangeError>(None)
            } else if range.month {
                r == Ok::<Option<CivilDate>, RangeError>(Some(CivilDate { year: today.year, month: today.month, day: 1 }))
            } else if range.week {
                r matches Ok(Some(monday)) && days_before(today, weekday_of(today) as nat) == Some(monday)
                    && weekday_of(monday) == 0 && day_number(monday) == day_number(today) - weekday_of(today)
                    && day_number(today) - 6 <= day_number(monday) <= day_number(today)
            } else {
                r == Ok::<Option<CivilDate>, RangeError>(Some(today))
            },
        },
{
    if let Some(text) = since {
        return match parse_date(text) {
            Some(d) => Ok(Some(d)),
            None => Err(RangeError::BadSince(text.to_string())),
        };
    }
    if range.all {
        return Ok(None);
    }
    if range.month {
        return match date_new(today.year, today.month, 1) {
            Some(first) => Ok(Some(first)),
            None => Err(RangeError::NoMonthStart),
        };
    }
    if range.week {
        let offset = weekday_offset(today);
        proof {
            let x = day_number(today) + 5;
            assert(x == 7 * (x / 7) + x % 7);
            assert((x - x % 7) % 7 == 0);
        }
        proof {
            lemma_week_start_reached(today, weekday_of(today) as nat);
        }
        return match week_start(today, offset) {
            Some(monday) => Ok(Some(monday)),
            None => Err(RangeError::NoWeekStart),
        };
    }
    Ok(Some(today))
}

/// The Monday of the week of `today`, whose weekday counted from Monday is `offset`:
/// `offset` days back, stepping one day at a time; `None` when a step would go before the
/// first representable date.
pub fn week_start(today: CivilDate, offset: i8) -> (r: Option<CivilDate>)
    requires
        today.valid(),
        0 <= offset <= 6,
    ensures
        r == days_before(today, offset as nat),
        r matches Some(m) ==> day_number(m) == day_number(today) - offset,
{
    let mut monday = today;
    let mut k: i8 = 0;
    while k < offset
        invariant
            0 <= k <= offset <= 6,
            today.valid(),
            days_before(today, k as nat) == Some(monday),
            monday.valid(),
            day_number(monday) == day_number(today) - k,
        decreases offset - k,
    {
        proof {
            if !monday.is_first_representable() {
                lemma_previous_day(monday);
            }
        }
        monday = match date_yesterday(monday) {
            Some(p) => p,
            None => {
                proof {
                    assert(days_before(today, (k + 1) as nat) is None);
                    lemma_days_before_stops(today, (k + 1) as nat, (offset as nat));
                }
                return None;
            },
        };
        k = k + 1;
    }
    Some(monday)
}

/// Stepping back from a valid date to its week's Monday never passes the first
/// representable date, which is itself a Monday.
proof fn lemma_week_start_reached(d: CivilDate, k: nat)
    requires
        d.valid(),
        k <= weekday_of(d),
    ensures
        days_before(d, k) matches Some(p) && p.valid() && day_number(p) == day_number(d) - k,
    decreases k,
{
    if k > 0 {
        lemma_week_start_reached(d, (k - 1) as nat);
        let p = days_before(d, (k - 1) as nat)->Some_0;
        let first = CivilDate { year: -9999i16, month: 1i8, day: 1i8 };
        if p.is_first_representable() {
            lemma_first_date_is_monday();
            assert(p == first);
            let x = day_number(d) + 5;
            let w = weekday_of(d);
            assert(x == 7 * (x / 7) + w);
            assert(day_number(p) + 5 == 7 * (x / 7) + (w - (k - 1)));
            assert((day_number(p) + 5) % 7 == w - (k - 1));
            assert(false);
        }
        lemma_previous_day(p);
    }
}

proof fn lemma_days_before_stops(d: CivilDate, k: nat, n: nat)
    requires
        k <= n,
        days_before(d, k) is None,
    ensures
        days_before(d, n) is None,
    decreases n - k,
{
    if k < n {
        lemma_days_before_stops(d, k + 1, n);
    }
}

/// Whether `log` shows a record: it starts on or after `from`, and (with `--here`) its
/// path, expanded, is the repository root.
pub open spec fn shown(e: Entry, from: Option<CivilDate>, scope: Option<Seq<char>>, home: Option<Seq<char>>) -> bool {
    &&& match from {
        Some(f) => !e.started_at.date.before(f),
        None => true,
    }
    &&& match scope {
        Some(root) => match expand_text(e.path@, home) {
            Some(p) => same_path(p, root),
            None => false,
        },
        None => true,
    }
}

/// A range with a first day `f` keeps every record that starts on `f` or on any later
/// day, and drops those that start earlier; the range adds nothing else to what the scope
/// keeps.
pub proof fn law_range_keeps_every_day_from_its_first(e: Entry, f: CivilDate, scope: Option<Seq<char>>, home: Option<Seq<char>>)
    ensures
        shown(e, Some(f), scope, home) <==> (!e.started_at.date.before(f) && shown(e, None, scope, home)),
        e.started_at.date == f || f.before(e.started_at.date) ==> (shown(e, Some(f), scope, home) <==> shown(
            e,
            None,
            scope,
            home,
        )),
        e.started_at.date.before(f) ==> !shown(e, Some(f), scope, home),
{
}

/// Selecting with a first day `f` and no scope gives, in their order, exactly the records
/// that start on `f` or later.
pub proof fn law_selection_from_a_day(entries: Seq<Entry>, f: CivilDate, home: Option<Seq<char>>)
    ensures
        entries.filter(|e: Entry| shown(e, Some(f), None, home)) == entries.filter(
            |e: Entry| !e.started_at.date.before(f),
        ),
{
    assert((|e: Entry| shown(e, Some(f), None, home)) =~= (|e: Entry| !e.started_at.date.before(f)));
}

fn is_shown(e: &Entry, from: Option<CivilDate>, scope: Option<&str>, home: Option<&str>) -> (r: bool)
    ensures
        r == shown(*e, from, opt_home(scope), opt_home(home)),
{
    let in_range = match from {
        Some(f) => !e.started_at.date.is_before(&f),
        None => true,
    };
    let in_scope = match scope {
        Some(root) => match expand(e.path.as_str(), home) {
            Ok(p) => same(p.as_str(), root),
            Err(_) => false,
        },
        None => true,
    };
    in_range && in_scope
}

/// The records that `log` shows, in their order.
pub fn select_entries(entries: Vec<Entry>, from: Option<CivilDate>, scope: Option<&str>, home: Option<&str>) -> (r: Vec<Entry>)
    ensures
        r@ == entries@.filter(|e: Entry| shown(e, from, opt_home(scope), opt_home(home))),
{
    let ghost orig = entries@;
    let ghost pred = |e: Entry| shown(e, from, opt_home(scope), opt_home(home));
    let mut entries = entries;
    let mut rev: Vec<Entry> = Vec::new();
    proof {
        assert(orig.skip(orig.len() as int).reverse() =~= rev@);
        assert(orig.take(orig.len() as int) =~= entries@);
    }
    while entries.len() > 0
        invariant
            entries@.len() <= orig.len(),
            entries@ == orig.take(entries@.len() as int),
            rev@ == orig.skip(entries@.len() as int).reverse(),
        decreases entries.len(),
    {
        let ghost m = entries@.len();
        let e = entries.pop().unwrap();
        rev.push(e);
        proof {
            assert(entries@ =~= orig.take(m - 1));
            assert(rev@ =~= orig.skip(m - 1).reverse());
        }
    }
    let mut out: Vec<Entry> = Vec::new();
    let ghost mut i: int = 0;
    proof {
        assert(orig.take(0).filter(pred) =~= Seq::<Entry>::empty());
        assert(orig.skip(0) =~= orig);
    }
    while rev.len() > 0
        invariant
            0 <= i <= orig.len(),
            rev@ == orig.skip(i).reverse(),
            out@ == orig.take(i).filter(pred),
            pred == (|e: Entry| shown(e, from, opt_home(scope), opt_home(home))),
        decreases rev.len(),
    {
        let e = rev.pop().unwrap();
        proof {
            reveal_with_fuel(Seq::<_>::filter, 1);
            assert(e == orig[i]);
            assert(orig.take(i + 1).drop_last() =~= orig.take(i));
            assert(orig.take(i + 1).last() == orig[i]);
        }
        let keep = is_shown(&e, from, scope, home);
        if keep {
            out.push(e);
        }
        proof {
            assert(rev@ =~= orig.skip(i + 1).reverse());
            i = i + 1;
        }
    }
    proof {
        assert(orig.take(i) =~= orig);
    }
    out
}

/// The span of a record, in nanoseconds.
pub open spec fn entry_span(e: Entry) -> int {
    e.ended_at.instant - e.started_at.instant
}

/// The sum of the spans of some records.
pub open spec fn span_total(es: Seq<Entry>) -> int
    decreases es.len(),
{
    if es.len() == 0 {
        0
    } else {
        span_total(es.drop_last()) + entry_span(es.last())
    }
}

/// The timestamps of the records are `jiff`'s.
pub open spec fn timestamps_valid(es: Seq<Entry>) -> bool {
    forall|i: int| 0 <= i < es.len() ==> (#[trigger] es[i]).started_at.valid() && es[i].ended_at.valid()
}

/// Every running sum of the spans of `s`, from the first record on, is one of `jiff`'s
/// `SignedDuration`s (adding one more that would leave that range panics).
pub open spec fn sums_fit(s: Seq<Entry>) -> bool {
    forall|j: int| 0 <= j <= s.len() ==> duration_fits(#[trigger] span_total(s.take(j)))
}

/// The records can be reported: their timestamps are `jiff`'s, and none of the sums that
/// the report adds up as it goes leaves the range of `SignedDuration`: the grand total and
/// the total of each name in the records' order, and (when the report spans several days)
/// the total of each day in order of start.
pub open spec fn reportable(es: Seq<Entry>) -> bool {
    &&& timestamps_valid(es)
    &&& sums_fit(es)
    &&& forall|i: int| 0 <= i < name_list(es).len() ==> sums_fit(with_name(es, #[trigger] name_list(es)[i]))
    &&& day_list(es).len() > 1 ==> forall|i: int|
        0 <= i < day_list(es).len() ==> sums_fit(by_start(on_day(es, #[trigger] day_list(es)[i])))
}

proof fn lemma_span_total_insert(t: Seq<Entry>, p: int, e: Entry)
    requires
        0 <= p <= t.len(),
    ensures
        span_total(t.insert(p, e)) == span_total(t) + entry_span(e),
    decreases t.len(),
{
    if p == t.len() {
        assert(t.insert(p, e).drop_last() =~= t);
    } else {
        let front = t.drop_last();
        lemma_span_total_insert(front, p, e);
        assert(t.insert(p, e).drop_last() =~= front.insert(p, e));
        assert(t.insert(p, e).last() == t.last());
    }
}

/// Ordering records by start does not change their total.
proof fn lemma_span_total_by_start(s: Seq<Entry>)
    ensures
        span_total(by_start(s)) == span_total(s),
    decreases s.len(),
{
    if s.len() > 0 {
        let front = s.drop_last();
        lemma_span_total_by_start(front);
        let sorted = by_start(front);
        lemma_start_slot_bounds(sorted, s.last().started_at.instant as int);
        lemma_span_total_insert(sorted, start_slot(sorted, s.last().started_at.instant as int) as int, s.last());
    }
}

/// The records of `es[..i]` that satisfy `p` are the first of those of `es` that do.
proof fn lemma_filter_prefix(es: Seq<Entry>, i: int, p: spec_fn(Entry) -> bool)
    requires
        0 <= i <= es.len(),
    ensures
        es.take(i).filter(p) == es.filter(p).take(es.take(i).filter(p).len() as int),
        es.take(i).filter(p).len() <= es.filter(p).len(),
{
    assert(es =~= es.take(i) + es.skip(i));
    Seq::filter_distributes_over_add(es.take(i), es.skip(i), p);
    assert(es.filter(p).take(es.take(i).filter(p).len() as int) =~= es.take(i).filter(p));
}

/// Where a date belongs in a sorted list of dates.
pub open spec fn date_slot(ds: Seq<CivilDate>, d: CivilDate) -> nat
    decreases ds.len(),
{
    if ds.len() == 0 {
        0
    } else if ds[0].before(d) {
        date_slot(ds.drop_first(), d) + 1
    } else {
        0
    }
}

/// A sorted list of distinct dates with `d` added.
pub open spec fn insert_date(ds: Seq<CivilDate>, d: CivilDate) -> Seq<CivilDate> {
    let p = date_slot(ds, d) as int;
    if p < ds.len() && ds[p] == d {
        ds
    } else {
        ds.insert(p, d)
    }
}

/// The days on which the records start, in calendar order, each once.
pub open spec fn day_list(es: Seq<Entry>) -> Seq<CivilDate>
    decreases es.len(),
{
    if es.len() == 0 {
        Seq::empty()
    } else {
        insert_date(day_list(es.drop_last()), es.last().started_at.date)
    }
}

/// The records that start on day `d`, in their order.
pub open spec fn on_day(es: Seq<Entry>, d: CivilDate) -> Seq<Entry> {
    es.filter(|e: Entry| e.started_at.date == d)
}

/// The number of leading records that start no later than `t`.
pub open spec fn start_slot(s: Seq<Entry>, t: int) -> nat
    decreases s.len(),
{
    if s.len() == 0 {
        0
    } else if s[0].started_at.instant <= t {
        start_slot(s.drop_first(), t) + 1
    } else {
        0
    }
}

/// The records in order of their start, records that start together kept in their order
/// (a stable sort, as `sort_by` is).
pub open spec fn by_start(s: Seq<Entry>) -> Seq<Entry>
    decreases s.len(),
{
    if s.len() == 0 {
        s
    } else {
        let sorted = by_start(s.drop_last());
        sorted.insert(start_slot(sorted, s.last().started_at.instant as int) as int, s.last())
    }
}

fn date_slot_of(ds: &Vec<CivilDate>, d: CivilDate) -> (r: (usize, bool))
    ensures
        r.0 == date_slot(ds@, d),
        r.0 <= ds@.len(),
        r.1 == (r.0 < ds@.len() && ds@[r.0 as int] == d),
{
    let mut i: usize = 0;
    while i < ds.len() && ds[i].is_before(&d)
        invariant
            i <= ds.len(),
            forall|j: int| 0 <= j < i ==> (#[trigger] ds@[j]).before(d),
        decreases ds.len() - i,
    {
        i = i + 1;
    }
    proof {
        lemma_date_slot(ds@, d, i as int);
    }
    (i, i < ds.len() && ds[i] == d)
}

proof fn lemma_date_slot(ds: Seq<CivilDate>, d: CivilDate, i: int)
    requires
        0 <= i <= ds.len(),
        forall|j: int| 0 <= j < i ==> (#[trigger] ds[j]).before(d),
        i == ds.len() || !ds[i].before(d),
    ensures
        date_slot(ds, d) == i,
    decreases ds.len(),
{
    if ds.len() > 0 && i > 0 {
        let t = ds.drop_first();
        assert(ds[0].before(d));
        assert forall|j: int| 0 <= j < i - 1 implies (#[trigger] t[j]).before(d) by {
            assert(t[j] == ds[j + 1]);
        }
        lemma_date_slot(t, d, i - 1);
    }
}

/// The days on which the records start, in calendar order, each once.
fn days_of(es: &Vec<Entry>) -> (r: Vec<CivilDate>)
    ensures
        r@ == day_list(es@),
{
    let mut ds: Vec<CivilDate> = Vec::new();
    let mut i: usize = 0;
    while i < es.len()
        invariant
            i <= es.len(),
            ds@ == day_list(es@.take(i as int)),
        decreases es.len() - i,
    {
        let d = es[i].started_at.date;
        let (p, present) = date_slot_of(&ds, d);
        if !present {
            ds.insert(p, d);
        }
        proof {
            assert(es@.take(i + 1).drop_last() =~= es@.take(i as int));
            assert(es@.take(i + 1).last() == es@[i as int]);
        }
        i = i + 1;
    }
    proof {
        assert(es@.take(es.len() as int) =~= es@);
    }
    ds
}

/// The indices of the records that start on day `d`, in their order.
fn day_indices(es: &Vec<Entry>, d: CivilDate) -> (r: Vec<usize>)
    ensures
        r@.map_values(|k: usize| es@[k as int]) == on_day(es@, d),
        forall|j: int| 0 <= j < r@.len() ==> #[trigger] r@[j] < es@.len(),
{
    let ghost pred = |e: Entry| e.started_at.date == d;
    let mut out: Vec<usize> = Vec::new();
    let mut i: usize = 0;
    proof {
        reveal_with_fuel(Seq::<_>::filter, 1);
        assert(out@.map_values(|k: usize| es@[k as int]) =~= es@.take(0).filter(pred));
    }
    while i < es.len()
        invariant
            i <= es.len(),
            pred == (|e: Entry| e.started_at.date == d),
            out@.map_values(|k: usize| es@[k as int]) == es@.take(i as int).filter(pred),
            forall|j: int| 0 <= j < out@.len() ==> #[trigger] out@[j] < i,
        decreases es.len() - i,
    {
        proof {
            reveal_with_fuel(Seq::<_>::filter, 1);
            assert(es@.take(i + 1).drop_last() =~= es@.take(i as int));
            assert(es@.take(i + 1).last() == es@[i as int]);
        }
        let ghost before = out@;
        if es[i].started_at.date == d {
            out.push(i);
            proof {
                assert(out@.map_values(|k: usize| es@[k as int]) =~= before.map_values(|k: usize| es@[k as int]).push(es@[i as int]));
            }
        }
        i = i + 1;
    }
    proof {
        assert(es@.take(es.len() as int) =~= es@);
    }
    out
}

proof fn lemma_start_slot(s: Seq<Entry>, t: int, i: int)
    requires
        0 <= i <= s.len(),
        forall|j: int| 0 <= j < i ==> (#[trigger] s[j]).started_at.instant <= t,
        i == s.len() || s[i].started_at.instant > t,
    ensures
        start_slot(s, t) == i,
    decreases s.len(),
{
    if s.len() > 0 && i > 0 {
        let u = s.drop_first();
        assert(s[0].started_at.instant <= t);
        assert forall|j: int| 0 <= j < i - 1 implies (#[trigger] u[j]).started_at.instant <= t by {
            assert(u[j] == s[j + 1]);
        }
        lemma_start_slot(u, t, i - 1);
    }
}

proof fn lemma_start_slot_bounds(s: Seq<Entry>, t: int)
    ensures
        start_slot(s, t) <= s.len(),
        forall|j: int| 0 <= j < start_slot(s, t) ==> (#[trigger] s[j]).started_at.instant <= t,
        start_slot(s, t) < s.len() ==> s[start_slot(s, t) as int].started_at.instant > t,
    decreases s.len(),
{
    if s.len() > 0 && s[0].started_at.instant <= t {
        let u = s.drop_first();
        lemma_start_slot_bounds(u, t);
        assert forall|j: int| 0 <= j < start_slot(s, t) implies (#[trigger] s[j]).started_at.instant <= t by {
            if j > 0 {
                assert(s[j] == u[j - 1]);
            }
        }
        if start_slot(s, t) < s.len() {
            assert(s[start_slot(s, t) as int] == u[start_slot(u, t) as int]);
        }
    }
}

/// Whether the records come in order of their start.
pub open spec fn starts_in_order(s: Seq<Entry>) -> bool {
    forall|i: int, j: int| 0 <= i < j < s.len() ==> (#[trigger] s[i]).started_at.instant <= (
    #[trigger] s[j]).started_at.instant
}

/// Within a day, `log` lists the records in order of their start, each of them once:
/// `by_start` orders the records it is given and neither drops nor repeats one.
pub proof fn law_by_start_sorts(s: Seq<Entry>)
    ensures
        starts_in_order(by_start(s)),
        by_start(s).to_multiset() == s.to_multiset(),
    decreases s.len(),
{
    broadcast use vstd::seq_lib::to_multiset_build, vstd::seq_lib::to_multiset_insert;

    if s.len() == 0 {
        assert(by_start(s) == s);
    } else {
        let front = s.drop_last();
        let e = s.last();
        law_by_start_sorts(front);
        let sorted = by_start(front);
        let t = e.started_at.instant as int;
        let p = start_slot(sorted, t) as int;
        lemma_start_slot_bounds(sorted, t);
        let w = sorted.insert(p, e);
        assert(w == by_start(s));
        assert forall|a: int, b: int| 0 <= a < b < w.len() implies (#[trigger] w[a]).started_at.instant <= (
        #[trigger] w[b]).started_at.instant by {
            if b < p {
                assert(w[a] == sorted[a] && w[b] == sorted[b]);
            } else if b == p {
                assert(w[a] == sorted[a]);
            } else if a == p {
                assert(w[b] == sorted[b - 1]);
                if b - 1 > p {
                    assert(sorted[p].started_at.instant <= sorted[b - 1].started_at.instant);
                }
            } else if a < p {
                assert(w[a] == sorted[a]);
                assert(w[b] == sorted[b - 1]);
            } else {
                assert(w[a] == sorted[a - 1]);
                assert(w[b] == sorted[b - 1]);
            }
        }
        assert(front.push(e) =~= s);
    }
}

/// The records that `idx` points at.
pub open spec fn pointed(es: Seq<Entry>, idx: Seq<usize>) -> Seq<Entry> {
    idx.map_values(|k: usize| es[k as int])
}

/// The indices `idx` reordered so that their records come in order of their start (stably).
fn sort_by_start(es: &Vec<Entry>, idx: &Vec<usize>) -> (r: Vec<usize>)
    requires
        forall|j: int| 0 <= j < idx@.len() ==> #[trigger] idx@[j] < es@.len(),
    ensures
        pointed(es@, r@) == by_start(pointed(es@, idx@)),
        forall|j: int| 0 <= j < r@.len() ==> #[trigger] r@[j] < es@.len(),
{
    let ghost t = pointed(es@, idx@);
    let mut sorted: Vec<usize> = Vec::new();
    let mut i: usize = 0;
    proof {
        assert(t.take(0) =~= Seq::<Entry>::empty());
        assert(pointed(es@, sorted@) =~= Seq::<Entry>::empty());
    }
    while i < idx.len()
        invariant
            i <= idx.len(),
            t == pointed(es@, idx@),
            forall|j: int| 0 <= j < idx@.len() ==> #[trigger] idx@[j] < es@.len(),
            forall|j: int| 0 <= j < sorted@.len() ==> #[trigger] sorted@[j] < es@.len(),
            pointed(es@, sorted@) == by_start(t.take(i as int)),
        decreases idx.len() - i,
    {
        let x = idx[i];
        let key = es[x].started_at.instant;
        let ghost cur = pointed(es@, sorted@);
        let mut p: usize = 0;
        while p < sorted.len() && es[sorted[p]].started_at.instant <= key
            invariant
                p <= sorted.len(),
                cur == pointed(es@, sorted@),
                x < es@.len(),
                key == es@[x as int].started_at.instant,
                forall|j: int| 0 <= j < sorted@.len() ==> #[trigger] sorted@[j] < es@.len(),
                forall|j: int| 0 <= j < p ==> (#[trigger] cur[j]).started_at.instant <= key,
            decreases sorted.len() - p,
        {
            p = p + 1;
        }
        proof {
            lemma_start_slot(cur, key as int, p as int);
            assert(t.take(i + 1).drop_last() =~= t.take(i as int));
            assert(t.take(i + 1).last() == es@[x as int]);
        }
        sorted.insert(p, x);
        proof {
            assert(pointed(es@, sorted@) =~= cur.insert(p as int, es@[x as int]));
        }
        i = i + 1;
    }
    proof {
        assert(t.take(idx.len() as int) =~= t);
    }
    sorted
}

/// One record of the report: `  09:30 → 11:45  2h15m  A社ZZ案件 / 設計`, the duration
/// padded to `width` columns.
pub open spec fn entry_line(e: Entry, width: nat) -> Seq<char> {
    seq![' ', ' '] + clock_text(e.started_at.hour as int, e.started_at.minute as int) + seq![' ', '→', ' ']
        + clock_text(e.ended_at.hour as int, e.ended_at.minute as int) + seq![' ', ' '] + padded(
        duration_text(entry_span(e)),
        width,
    ) + seq![' ', ' '] + title_text(record_name(opt_string_view(e.label), e.path@), opt_string_view(e.note))
}

fn render_entry(e: &Entry, width: usize) -> (s: String)
    requires
        e.started_at.valid(),
        e.ended_at.valid(),
    ensures
        s@ == entry_line(*e, width as nat),
{
    let mut out = String::new();
    push_str(&mut out, "  ");
    push_str(&mut out, clock(&e.started_at).as_str());
    push_str(&mut out, " → ");
    push_str(&mut out, clock(&e.ended_at).as_str());
    push_str(&mut out, "  ");
    push_str(&mut out, pad(duration(e.duration()).as_str(), width).as_str());
    push_str(&mut out, "  ");
    let name = e.display_name();
    let note = match &e.note {
        Some(n) => Some(n.as_str()),
        None => None,
    };
    push_str(&mut out, title(name.as_str(), note).as_str());
    proof {
        reveal_strlit("  ");
        reveal_strlit(" → ");
        assert(opt_str_view(note) == opt_string_view(e.note));
        assert(out@ =~= entry_line(*e, width as nat));
    }
    out
}

/// The width of the duration column: the widest duration shown, and at least 5.
pub open spec fn duration_column(es: Seq<Entry>) -> nat
    decreases es.len(),
{
    if es.len() == 0 {
        5
    } else {
        let w = duration_column(es.drop_last());
        let x = display_width(duration_text(entry_span(es.last()))) as nat;
        if x > w {
            x
        } else {
            w
        }
    }
}

fn duration_width(es: &Vec<Entry>) -> (w: usize)
    requires
        reportable(es@),
    ensures
        w == duration_column(es@),
{
    let mut w: usize = 5;
    let mut i: usize = 0;
    proof {
        assert(es@.take(0) =~= Seq::<Entry>::empty());
    }
    while i < es.len()
        invariant
            i <= es.len(),
            reportable(es@),
            w == duration_column(es@.take(i as int)),
        decreases es.len() - i,
    {
        proof {
            assert(es@[i as int].started_at.valid() && es@[i as int].ended_at.valid());
            assert(es@.take(i + 1).drop_last() =~= es@.take(i as int));
            assert(es@.take(i + 1).last() == es@[i as int]);
        }
        let x = width(duration(es[i].duration()).as_str());
        if x > w {
            w = x;
        }
        i = i + 1;
    }
    proof {
        assert(es@.take(es.len() as int) =~= es@);
    }
    w
}

/// The line under a day that shows its total: the total in the duration column.
pub open spec fn total_line(nanos: int) -> Seq<char> {
    spaces(17) + duration_text(nanos)
}

/// The lines for one day: its date, its records in order of start, its total when the
/// report spans several days, and a blank line.
pub open spec fn day_block(es: Seq<Entry>, d: CivilDate, w: nat, several: bool) -> Seq<Seq<char>> {
    seq![date_line(d)] + by_start(on_day(es, d)).map_values(|e: Entry| entry_line(e, w)) + (if several {
        seq![total_line(span_total(on_day(es, d)))]
    } else {
        Seq::empty()
    }) + seq![Seq::<char>::empty()]
}

pub open spec fn day_blocks(es: Seq<Entry>, ds: Seq<CivilDate>, w: nat, several: bool) -> Seq<Seq<char>>
    decreases ds.len(),
{
    if ds.len() == 0 {
        Seq::empty()
    } else {
        day_blocks(es, ds.drop_last(), w, several) + day_block(es, ds.last(), w, several)
    }
}

proof fn lemma_day_list_valid(es: Seq<Entry>)
    requires
        timestamps_valid(es),
    ensures
        forall|i: int| 0 <= i < day_list(es).len() ==> (#[trigger] day_list(es)[i]).valid(),
    decreases es.len(),
{
    if es.len() > 0 {
        let front = es.drop_last();
        assert forall|i: int| 0 <= i < front.len() implies (#[trigger] front[i]).started_at.valid()
            && front[i].ended_at.valid() by {
            assert(front[i] == es[i]);
        }
        lemma_day_list_valid(front);
        let ds = day_list(front);
        let d = es.last().started_at.date;
        assert(es[es.len() - 1].started_at.valid());
        let p = date_slot(ds, d) as int;
        lemma_date_slot_bound(ds, d);
        if !(p < ds.len() && ds[p] == d) {
            assert forall|i: int| 0 <= i < ds.insert(p, d).len() implies (#[trigger] ds.insert(p, d)[i]).valid() by {
                if i < p {
                    assert(ds.insert(p, d)[i] == ds[i]);
                } else if i > p {
                    assert(ds.insert(p, d)[i] == ds[i - 1]);
                }
            }
        }
    }
}

proof fn lemma_date_slot_bound(ds: Seq<CivilDate>, d: CivilDate)
    ensures
        date_slot(ds, d) <= ds.len(),
    decreases ds.len(),
{
    if ds.len() > 0 && ds[0].before(d) {
        lemma_date_slot_bound(ds.drop_first(), d);
    }
}


/// Appends the lines of one day.
fn push_day_block(out: &mut Vec<String>, es: &Vec<Entry>, d: CivilDate, w: usize, several: bool)
    requires
        reportable(es@),
        d.valid(),
        day_list(es@).contains(d),
        several ==> day_list(es@).len() > 1,
    ensures
        strings(final(out)@) == strings(old(out)@) + day_block(es@, d, w as nat, several),
{
    let ghost start = strings(out@);
    out.push(date(d));
    let idx = day_indices(es, d);
    let order = sort_by_start(es, &idx);
    let ghost lines = by_start(on_day(es@, d)).map_values(|e: Entry| entry_line(e, w as nat));
    proof {
        assert(strings(out@) =~= start + seq![date_line(d)]);
    }
    let mut i: usize = 0;
    while i < order.len()
        invariant
            i <= order.len(),
            reportable(es@),
            pointed(es@, order@) == by_start(on_day(es@, d)),
            forall|j: int| 0 <= j < order@.len() ==> #[trigger] order@[j] < es@.len(),
            lines == by_start(on_day(es@, d)).map_values(|e: Entry| entry_line(e, w as nat)),
            strings(out@) == start + seq![date_line(d)] + lines.take(i as int),
        decreases order.len() - i,
    {
        let k = order[i];
        proof {
            assert(es@[k as int].started_at.valid() && es@[k as int].ended_at.valid());
            assert(pointed(es@, order@)[i as int] == es@[k as int]);
        }
        let line = render_entry(&es[k], w);
        let ghost before = strings(out@);
        out.push(line);
        proof {
            assert(lines[i as int] == entry_line(es@[k as int], w as nat));
            assert(strings(out@) =~= before.push(line@));
            assert(lines.take(i + 1) =~= lines.take(i as int).push(lines[i as int]));
        }
        i = i + 1;
    }
    proof {
        assert(lines.take(order.len() as int) =~= lines);
    }
    let ghost mid = strings(out@);
    if several {
        proof {
            let k = choose|k: int| 0 <= k < day_list(es@).len() && day_list(es@)[k] == d;
            assert(sums_fit(by_start(on_day(es@, day_list(es@)[k]))));
            assert(by_start(on_day(es@, d)).take(order@.len() as int) =~= by_start(on_day(es@, d)));
            lemma_span_total_by_start(on_day(es@, d));
        }
        let total = ordered_sums(es, &order).unwrap();
        let mut line = String::new();
        push_spaces(&mut line, 17);
        push_str(&mut line, duration(Span { nanos: total }).as_str());
        out.push(line);
        proof {
            assert(strings(out@) =~= mid + seq![total_line(span_total(on_day(es@, d)))]);
        }
    }
    let ghost mid2 = strings(out@);
    out.push(String::new());
    proof {
        assert(strings(out@) =~= mid2 + seq![Seq::<char>::empty()]);
        assert(strings(out@) =~= start + day_block(es@, d, w as nat, several));
    }
}

/// The name a record is totalled under.
pub open spec fn entry_name(e: Entry) -> Seq<char> {
    record_name(opt_string_view(e.label), e.path@)
}

/// Where a name belongs in a sorted list of names.
pub open spec fn name_slot(ns: Seq<Seq<char>>, n: Seq<char>) -> nat
    decreases ns.len(),
{
    if ns.len() == 0 {
        0
    } else if lex_lt(ns[0], n) {
        name_slot(ns.drop_first(), n) + 1
    } else {
        0
    }
}

pub open spec fn insert_name(ns: Seq<Seq<char>>, n: Seq<char>) -> Seq<Seq<char>> {
    let p = name_slot(ns, n) as int;
    if p < ns.len() && ns[p] == n {
        ns
    } else {
        ns.insert(p, n)
    }
}

/// The names of the records in `String` order, each once.
pub open spec fn name_list(es: Seq<Entry>) -> Seq<Seq<char>>
    decreases es.len(),
{
    if es.len() == 0 {
        Seq::empty()
    } else {
        insert_name(name_list(es.drop_last()), entry_name(es.last()))
    }
}

/// The records that go by name `n`, in their order.
pub open spec fn with_name(es: Seq<Entry>, n: Seq<char>) -> Seq<Entry> {
    es.filter(|e: Entry| entry_name(e) == n)
}

/// The width of the name column: the widest name, and at least that of `合計`.
pub open spec fn label_column(ns: Seq<Seq<char>>) -> nat
    decreases ns.len(),
{
    if ns.len() == 0 {
        display_width("合計"@) as nat
    } else {
        let w = label_column(ns.drop_last());
        let x = display_width(ns.last()) as nat;
        if x > w {
            x
        } else {
            w
        }
    }
}

/// The width of the totals: the widest total of a name, or of all records.
pub open spec fn total_column(es: Seq<Entry>, ns: Seq<Seq<char>>) -> nat
    decreases ns.len(),
{
    if ns.len() == 0 {
        display_width(duration_text(span_total(es))) as nat
    } else {
        let w = total_column(es, ns.drop_last());
        let x = display_width(duration_text(span_total(with_name(es, ns.last())))) as nat;
        if x > w {
            x
        } else {
            w
        }
    }
}

/// `A社ZZ案件   4h45m`: a name and the total of its records.
pub open spec fn name_line(es: Seq<Entry>, n: Seq<char>, lw: nat) -> Seq<char> {
    padded(n, lw) + seq![' ', ' '] + duration_text(span_total(with_name(es, n)))
}

pub open spec fn rule_line(len: nat) -> Seq<char> {
    Seq::new(len, |i: int| '─')
}

/// The totals by name, a rule, and the grand total.
pub open spec fn summary(es: Seq<Entry>) -> Seq<Seq<char>> {
    let ns = name_list(es);
    let lw = label_column(ns);
    ns.map_values(|n: Seq<char>| name_line(es, n, lw)) + seq![rule_line(lw + 2 + total_column(es, ns))] + seq![
        padded("合計"@, lw) + seq![' ', ' '] + duration_text(span_total(es)),
    ]
}

/// The report of `log`: a block per day, then the summary; or a note that there is nothing.
pub open spec fn report(es: Seq<Entry>) -> Seq<Seq<char>> {
    if es.len() == 0 {
        seq!["· 記録がありません"@]
    } else {
        let ds = day_list(es);
        day_blocks(es, ds, duration_column(es), ds.len() > 1) + summary(es)
    }
}

/// The rule under the totals fits in a `usize` of columns (where adding the widths would
/// otherwise overflow).
pub open spec fn rule_fits(es: Seq<Entry>) -> bool {
    label_column(name_list(es)) + 2 + total_column(es, name_list(es)) <= usize::MAX
}

fn names_of(es: &Vec<Entry>) -> (r: Vec<Vec<char>>)
    ensures
        r@.len() == es@.len(),
        forall|i: int| 0 <= i < es@.len() ==> (#[trigger] r@[i])@ == entry_name(es@[i]),
{
    let mut out: Vec<Vec<char>> = Vec::new();
    let mut i: usize = 0;
    while i < es.len()
        invariant
            i <= es.len(),
            out@.len() == i,
            forall|j: int| 0 <= j < i ==> (#[trigger] out@[j])@ == entry_name(es@[j]),
        decreases es.len() - i,
    {
        out.push(chars_of(es[i].display_name().as_str()));
        i = i + 1;
    }
    out
}

proof fn lemma_name_slot(ns: Seq<Seq<char>>, n: Seq<char>, i: int)
    requires
        0 <= i <= ns.len(),
        forall|j: int| 0 <= j < i ==> lex_lt(#[trigger] ns[j], n),
        i == ns.len() || !lex_lt(ns[i], n),
    ensures
        name_slot(ns, n) == i,
    decreases ns.len(),
{
    if ns.len() > 0 && i > 0 {
        let t = ns.drop_first();
        assert(lex_lt(ns[0], n));
        assert forall|j: int| 0 <= j < i - 1 implies lex_lt(#[trigger] t[j], n) by {
            assert(t[j] == ns[j + 1]);
        }
        lemma_name_slot(t, n, i - 1);
    }
}

/// The names in `String` order, each once.
fn sorted_names(es: &Vec<Entry>, names: &Vec<Vec<char>>) -> (r: Vec<Vec<char>>)
    requires
        names@.len() == es@.len(),
        forall|i: int| 0 <= i < es@.len() ==> (#[trigger] names@[i])@ == entry_name(es@[i]),
    ensures
        char_vecs(r@) == name_list(es@),
{
    let mut ns: Vec<Vec<char>> = Vec::new();
    let mut i: usize = 0;
    proof {
        assert(es@.take(0) =~= Seq::<Entry>::empty());
        assert(char_vecs(ns@) =~= Seq::<Seq<char>>::empty());
    }
    while i < names.len()
        invariant
            i <= names.len() == es@.len(),
            forall|j: int| 0 <= j < es@.len() ==> (#[trigger] names@[j])@ == entry_name(es@[j]),
            char_vecs(ns@) == name_list(es@.take(i as int)),
        decreases names.len() - i,
    {
        let n = &names[i];
        let ghost cur = char_vecs(ns@);
        let mut p: usize = 0;
        while p < ns.len() && compare_chars(&ns[p], n) == KeyOrder::Less
            invariant
                p <= ns.len(),
                cur == char_vecs(ns@),
                forall|j: int| 0 <= j < p ==> lex_lt(#[trigger] cur[j], n@),
            decreases ns.len() - p,
        {
            p = p + 1;
        }
        let found = p < ns.len() && seq_eq(&ns[p], n);
        proof {
            if p < ns.len() {
                lemma_lex_asymmetric(cur[p as int], n@);
                lemma_lex_irreflexive(n@);
            }
            lemma_name_slot(cur, n@, p as int);
            assert(es@.take(i + 1).drop_last() =~= es@.take(i as int));
            assert(es@.take(i + 1).last() == es@[i as int]);
        }
        if !found {
            let copy = slice_chars(n, 0, n.len());
            proof {
                assert(copy@ =~= n@);
            }
            ns.insert(p, copy);
            proof {
                assert(char_vecs(ns@) =~= cur.insert(p as int, n@));
            }
        }
        i = i + 1;
    }
    proof {
        assert(es@.take(es.len() as int) =~= es@);
    }
    ns
}


/// Whether a sum of spans is one of `jiff`'s `SignedDuration`s.
fn fits(total: i128) -> (r: bool)
    ensures
        r == duration_fits(total as int),
{
    -9_223_372_036_854_775_808_999_999_999i128 <= total && total <= 9_223_372_036_854_775_807_999_999_999i128
}

/// The sum of the spans of all the records, if every running sum fits.
fn running_sums(es: &Vec<Entry>) -> (r: Option<i128>)
    requires
        timestamps_valid(es@),
    ensures
        r is Some <==> sums_fit(es@),
        r matches Some(t) ==> t == span_total(es@),
{
    let mut total: i128 = 0;
    let mut i: usize = 0;
    proof {
        assert(es@.take(0) =~= Seq::<Entry>::empty());
    }
    while i < es.len()
        invariant
            i <= es.len(),
            timestamps_valid(es@),
            total == span_total(es@.take(i as int)),
            forall|j: int| 0 <= j <= i ==> duration_fits(#[trigger] span_total(es@.take(j))),
        decreases es.len() - i,
    {
        proof {
            assert(duration_fits(span_total(es@.take(i as int))));
            assert(es@[i as int].started_at.valid() && es@[i as int].ended_at.valid());
            assert(es@.take(i + 1).drop_last() =~= es@.take(i as int));
            assert(es@.take(i + 1).last() == es@[i as int]);
        }
        total = total + (es[i].ended_at.instant - es[i].started_at.instant);
        if !fits(total) {
            proof {
                assert(!duration_fits(span_total(es@.take(i + 1))));
            }
            return None;
        }
        i = i + 1;
    }
    proof {
        assert(es@.take(es.len() as int) =~= es@);
        assert forall|j: int| 0 <= j <= es@.len() implies duration_fits(#[trigger] span_total(es@.take(j))) by {}
    }
    Some(total)
}

/// The sum of the spans of the records that go by name `n`, in their order, if every
/// running sum fits.
fn name_sums(es: &Vec<Entry>, names: &Vec<Vec<char>>, n: &Vec<char>) -> (r: Option<i128>)
    requires
        timestamps_valid(es@),
        names@.len() == es@.len(),
        forall|i: int| 0 <= i < es@.len() ==> (#[trigger] names@[i])@ == entry_name(es@[i]),
    ensures
        r is Some <==> sums_fit(with_name(es@, n@)),
        r matches Some(t) ==> t == span_total(with_name(es@, n@)),
{
    let ghost pred = |e: Entry| entry_name(e) == n@;
    let ghost wn = es@.filter(pred);
    let mut total: i128 = 0;
    let mut i: usize = 0;
    proof {
        reveal_with_fuel(Seq::<_>::filter, 1);
        assert(es@.take(0).filter(pred) =~= Seq::<Entry>::empty());
        assert(es@.take(0) =~= Seq::<Entry>::empty());
        assert(wn.take(0) =~= Seq::<Entry>::empty());
    }
    while i < es.len()
        invariant
            i <= es.len() == names@.len(),
            timestamps_valid(es@),
            forall|j: int| 0 <= j < es@.len() ==> (#[trigger] names@[j])@ == entry_name(es@[j]),
            pred == (|e: Entry| entry_name(e) == n@),
            wn == es@.filter(pred),
            total == span_total(es@.take(i as int).filter(pred)),
            forall|j: int|
                0 <= j <= es@.take(i as int).filter(pred).len() ==> duration_fits(#[trigger] span_total(wn.take(j))),
        decreases es.len() - i,
    {
        let ghost f = es@.take(i as int).filter(pred);
        proof {
            reveal_with_fuel(Seq::<_>::filter, 1);
            lemma_filter_prefix(es@, i as int, pred);
            lemma_filter_prefix(es@, i + 1, pred);
            assert(es@.take(i + 1).drop_last() =~= es@.take(i as int));
            assert(es@.take(i + 1).last() == es@[i as int]);
            assert(es@[i as int].started_at.valid() && es@[i as int].ended_at.valid());
            assert(duration_fits(span_total(wn.take(f.len() as int))));
        }
        if seq_eq(&names[i], n) {
            proof {
                assert(es@.take(i + 1).filter(pred) == f.push(es@[i as int]));
                assert(f.push(es@[i as int]).drop_last() =~= f);
            }
            total = total + (es[i].ended_at.instant - es[i].started_at.instant);
            if !fits(total) {
                proof {
                    assert(wn.take(f.len() as int + 1) == es@.take(i + 1).filter(pred));
                    assert(!duration_fits(span_total(wn.take(f.len() as int + 1))));
                }
                return None;
            }
            proof {
                assert(wn.take(f.len() as int + 1) == es@.take(i + 1).filter(pred));
            }
        } else {
            proof {
                assert(es@.take(i + 1).filter(pred) == f);
            }
        }
        i = i + 1;
    }
    proof {
        assert(es@.take(es.len() as int) =~= es@);
        assert(wn == es@.filter(|e: Entry| entry_name(e) == n@));
    }
    Some(total)
}

/// The sum of the spans of the records that `order` points at, in that order, if every
/// running sum fits.
fn ordered_sums(es: &Vec<Entry>, order: &Vec<usize>) -> (r: Option<i128>)
    requires
        timestamps_valid(es@),
        forall|j: int| 0 <= j < order@.len() ==> #[trigger] order@[j] < es@.len(),
    ensures
        r is Some <==> sums_fit(pointed(es@, order@)),
        r matches Some(t) ==> t == span_total(pointed(es@, order@)),
{
    let ghost ps = pointed(es@, order@);
    let mut total: i128 = 0;
    let mut i: usize = 0;
    proof {
        assert(ps.take(0) =~= Seq::<Entry>::empty());
    }
    while i < order.len()
        invariant
            i <= order.len(),
            timestamps_valid(es@),
            forall|j: int| 0 <= j < order@.len() ==> #[trigger] order@[j] < es@.len(),
            ps == pointed(es@, order@),
            total == span_total(ps.take(i as int)),
            forall|j: int| 0 <= j <= i ==> duration_fits(#[trigger] span_total(ps.take(j))),
        decreases order.len() - i,
    {
        let k = order[i];
        proof {
            assert(duration_fits(span_total(ps.take(i as int))));
            assert(ps[i as int] == es@[k as int]);
            assert(es@[k as int].started_at.valid() && es@[k as int].ended_at.valid());
            assert(ps.take(i + 1).drop_last() =~= ps.take(i as int));
            assert(ps.take(i + 1).last() == ps[i as int]);
        }
        total = total + (es[k].ended_at.instant - es[k].started_at.instant);
        if !fits(total) {
            proof {
                assert(!duration_fits(span_total(ps.take(i + 1))));
            }
            return None;
        }
        i = i + 1;
    }
    proof {
        assert(ps.take(order.len() as int) =~= ps);
        assert forall|j: int| 0 <= j <= ps.len() implies duration_fits(#[trigger] span_total(ps.take(j))) by {}
    }
    Some(total)
}

/// The sum of the spans of the records that go by name `n`.
fn name_total(es: &Vec<Entry>, names: &Vec<Vec<char>>, n: &Vec<char>) -> (r: i128)
    requires
        reportable(es@),
        names@.len() == es@.len(),
        forall|i: int| 0 <= i < es@.len() ==> (#[trigger] names@[i])@ == entry_name(es@[i]),
        name_list(es@).contains(n@),
    ensures
        r == span_total(with_name(es@, n@)),
        duration_fits(r as int),
{
    proof {
        let k = choose|k: int| 0 <= k < name_list(es@).len() && name_list(es@)[k] == n@;
        assert(sums_fit(with_name(es@, name_list(es@)[k])));
        assert(duration_fits(span_total(with_name(es@, n@).take(with_name(es@, n@).len() as int))));
        assert(with_name(es@, n@).take(with_name(es@, n@).len() as int) =~= with_name(es@, n@));
    }
    name_sums(es, names, n).unwrap()
}

/// The sum of the spans of all the records.
fn grand_total(es: &Vec<Entry>) -> (r: i128)
    requires
        reportable(es@),
    ensures
        r == span_total(es@),
        duration_fits(r as int),
{
    proof {
        assert(duration_fits(span_total(es@.take(es@.len() as int))));
        assert(es@.take(es@.len() as int) =~= es@);
    }
    running_sums(es).unwrap()
}


/// The widths of the name column and of the totals.
fn summary_columns(es: &Vec<Entry>, names: &Vec<Vec<char>>, ns: &Vec<Vec<char>>) -> (r: (usize, usize))
    requires
        reportable(es@),
        char_vecs(ns@) == name_list(es@),
        names@.len() == es@.len(),
        forall|j: int| 0 <= j < es@.len() ==> (#[trigger] names@[j])@ == entry_name(es@[j]),
    ensures
        r.0 == label_column(char_vecs(ns@)),
        r.1 == total_column(es@, char_vecs(ns@)),
{
    let ghost nsv = char_vecs(ns@);
    let mut lw = width("合計");
    let mut i: usize = 0;
    proof {
        assert(nsv.take(0) =~= Seq::<Seq<char>>::empty());
    }
    while i < ns.len()
        invariant
            i <= ns.len(),
            nsv == char_vecs(ns@),
            lw == label_column(nsv.take(i as int)),
        decreases ns.len() - i,
    {
        proof {
            assert(nsv.take(i + 1).drop_last() =~= nsv.take(i as int));
            assert(nsv.take(i + 1).last() == ns@[i as int]@);
        }
        let x = width(string_of(&ns[i]).as_str());
        if x > lw {
            lw = x;
        }
        i = i + 1;
    }
    proof {
        assert(nsv.take(ns.len() as int) =~= nsv);
    }
    let total = grand_total(es);
    let mut rule = width(duration(Span { nanos: total }).as_str());
    i = 0;
    while i < ns.len()
        invariant
            i <= ns.len(),
            reportable(es@),
            names@.len() == es@.len(),
            forall|j: int| 0 <= j < es@.len() ==> (#[trigger] names@[j])@ == entry_name(es@[j]),
            nsv == char_vecs(ns@),
            nsv == name_list(es@),
            total == span_total(es@),
            rule == total_column(es@, nsv.take(i as int)),
        decreases ns.len() - i,
    {
        proof {
            assert(nsv.take(i + 1).drop_last() =~= nsv.take(i as int));
            assert(nsv.take(i + 1).last() == ns@[i as int]@);
            assert(nsv[i as int] == ns@[i as int]@);
        }
        let t = name_total(es, names, &ns[i]);
        let x = width(duration(Span { nanos: t }).as_str());
        if x > rule {
            rule = x;
        }
        i = i + 1;
    }
    proof {
        assert(nsv.take(ns.len() as int) =~= nsv);
    }
    (lw, rule)
}

/// Whether `report_lines` can be asked for these records: the timestamps are valid, the
/// spans can be summed, and the rule's width fits in a `usize`.
pub fn can_report(es: &Vec<Entry>) -> (r: bool)
    ensures
        r == (reportable(es@) && rule_fits(es@)),
{
    let mut i: usize = 0;
    while i < es.len()
        invariant
            i <= es.len(),
            forall|j: int| 0 <= j < i ==> (#[trigger] es@[j]).started_at.valid() && es@[j].ended_at.valid(),
        decreases es.len() - i,
    {
        if !es[i].started_at.is_valid() || !es[i].ended_at.is_valid() {
            return false;
        }
        i = i + 1;
    }
    if running_sums(es).is_none() {
        return false;
    }
    let names = names_of(es);
    let ns = sorted_names(es, &names);
    let ghost nsv = char_vecs(ns@);
    let mut k: usize = 0;
    while k < ns.len()
        invariant
            k <= ns.len(),
            timestamps_valid(es@),
            names@.len() == es@.len(),
            forall|j: int| 0 <= j < es@.len() ==> (#[trigger] names@[j])@ == entry_name(es@[j]),
            nsv == char_vecs(ns@),
            nsv == name_list(es@),
            forall|j: int| 0 <= j < k ==> sums_fit(with_name(es@, #[trigger] name_list(es@)[j])),
        decreases ns.len() - k,
    {
        proof {
            assert(nsv[k as int] == ns@[k as int]@);
        }
        if name_sums(es, &names, &ns[k]).is_none() {
            return false;
        }
        k = k + 1;
    }
    let days = days_of(es);
    if days.len() > 1 {
        let mut k: usize = 0;
        while k < days.len()
            invariant
                k <= days.len(),
                timestamps_valid(es@),
                days@ == day_list(es@),
                days@.len() > 1,
                forall|j: int| 0 <= j < k ==> sums_fit(by_start(on_day(es@, #[trigger] day_list(es@)[j]))),
            decreases days.len() - k,
        {
            let idx = day_indices(es, days[k]);
            let order = sort_by_start(es, &idx);
            proof {
                assert(idx@.map_values(|x: usize| es@[x as int]) == pointed(es@, idx@));
            }
            if ordered_sums(es, &order).is_none() {
                proof {
                    assert(days@[k as int] == day_list(es@)[k as int]);
                    assert(!sums_fit(by_start(on_day(es@, day_list(es@)[k as int]))));
                }
                return false;
            }
            k = k + 1;
        }
    }
    proof {
        assert(reportable(es@));
    }
    let names = names_of(es);
    let ns = sorted_names(es, &names);
    let (lw, rule) = summary_columns(es, &names, &ns);
    (lw as u128) + 2 + (rule as u128) <= usize::MAX as u128
}

/// Appends the summary: totals by name, the rule, the grand total.
fn push_summary(out: &mut Vec<String>, es: &Vec<Entry>)
    requires
        reportable(es@),
        rule_fits(es@),
    ensures
        strings(final(out)@) == strings(old(out)@) + summary(es@),
{
    let ghost start = strings(out@);
    let names = names_of(es);
    let ns = sorted_names(es, &names);
    let ghost nsv = char_vecs(ns@);
    let (lw, rule) = summary_columns(es, &names, &ns);
    let total = grand_total(es);
    let ghost lines = nsv.map_values(|n: Seq<char>| name_line(es@, n, lw as nat));
    let mut i: usize = 0;
    while i < ns.len()
        invariant
            i <= ns.len(),
            reportable(es@),
            names@.len() == es@.len(),
            forall|j: int| 0 <= j < es@.len() ==> (#[trigger] names@[j])@ == entry_name(es@[j]),
            nsv == char_vecs(ns@),
            lines == nsv.map_values(|n: Seq<char>| name_line(es@, n, lw as nat)),
            strings(out@) == start + lines.take(i as int),
            nsv == name_list(es@),
            lw == label_column(nsv),
            rule == total_column(es@, nsv),
            total == span_total(es@),
            rule_fits(es@),
        decreases ns.len() - i,
    {
        proof {
            assert(nsv[i as int] == ns@[i as int]@);
        }
        let t = name_total(es, &names, &ns[i]);
        let mut line = pad(string_of(&ns[i]).as_str(), lw);
        push_str(&mut line, "  ");
        push_str(&mut line, duration(Span { nanos: t }).as_str());
        let ghost before = strings(out@);
        out.push(line);
        proof {
            reveal_strlit("  ");
            assert(line@ =~= name_line(es@, nsv[i as int], lw as nat));
            assert(strings(out@) =~= before.push(line@));
            assert(lines.take(i + 1) =~= lines.take(i as int).push(lines[i as int]));
        }
        i = i + 1;
    }
    proof {
        assert(lines.take(ns.len() as int) =~= lines);
    }
    let n = lw + 2 + rule;
    let mut line = String::new();
    let mut k: usize = 0;
    while k < n
        invariant
            k <= n,
            line@ == rule_line(k as nat),
        decreases n - k,
    {
        line.push('─');
        k = k + 1;
        proof {
            assert(line@ =~= rule_line(k as nat));
        }
    }
    let ghost mid = strings(out@);
    out.push(line);
    let mut last = pad("合計", lw);
    push_str(&mut last, "  ");
    push_str(&mut last, duration(Span { nanos: total }).as_str());
    let ghost mid2 = strings(out@);
    out.push(last);
    proof {
        reveal_strlit("  ");
        assert(last@ =~= padded("合計"@, lw as nat) + seq![' ', ' '] + duration_text(span_total(es@)));
        assert(mid =~= start + lines);
        assert(mid2 =~= mid.push(rule_line(n as nat)));
        assert(strings(out@) =~= mid2.push(last@));
        assert(strings(out@) =~= start + summary(es@));
    }
}

/// The lines that `log` prints for the records it shows.
pub fn report_lines(es: &Vec<Entry>) -> (r: Vec<String>)
    requires
        reportable(es@),
        rule_fits(es@),
    ensures
        strings(r@) == report(es@),
{
    let mut out: Vec<String> = Vec::new();
    if es.len() == 0 {
        out.push("· 記録がありません".to_string());
        proof {
            assert(strings(out@) =~= report(es@));
        }
        return out;
    }
    let days = days_of(es);
    let w = duration_width(es);
    let several = days.len() > 1;
    proof {
        lemma_day_list_valid(es@);
        assert(strings(out@) =~= day_blocks(es@, days@.take(0), w as nat, several));
    }
    let mut i: usize = 0;
    while i < days.len()
        invariant
            i <= days.len(),
            reportable(es@),
            days@ == day_list(es@),
            several == (days@.len() > 1),
            forall|j: int| 0 <= j < days@.len() ==> (#[trigger] days@[j]).valid(),
            strings(out@) == day_blocks(es@, days@.take(i as int), w as nat, several),
        decreases days.len() - i,
    {
        proof {
            assert(days@.take(i + 1).drop_last() =~= days@.take(i as int));
            assert(days@.take(i + 1).last() == days@[i as int]);
            assert(day_list(es@)[i as int] == days@[i as int]);
        }
        push_day_block(&mut out, es, days[i], w, several);
        i = i + 1;
    }
    proof {
        assert(days@.take(days.len() as int) =~= days@);
    }
    push_summary(&mut out, es);
    out
}

/// The lines of `log` when they can be worked out: `None` when a sum of the spans would
/// leave the range of `jiff`'s `SignedDuration`, a timestamp is not one of `jiff`'s, or the
/// rule's width would overflow a `usize` (where the report would panic).
pub fn try_report_lines(es: &Vec<Entry>) -> (r: Option<Vec<String>>)
    ensures
        r is Some <==> reportable(es@) && rule_fits(es@),
        r matches Some(lines) ==> strings(lines@) == report(es@),
{
    if can_report(es) {
        Some(report_lines(es))
    } else {
        None
    }
}

/// `▶ 09:30  A社ZZ案件 / CLI実装  2h15m (打刻中)`: the session still running, shown under
/// the report.
pub fn running_report_line(s: &Session, now: &Moment) -> (r: String)
    requires
        s.started_at.valid(),
        now.valid(),
    ensures
        r@ == running_line_text(*s, *now) + " (打刻中)"@,
{
    let mut line = running_line(s, now);
    push_str(&mut line, " (打刻中)");
    line
}

} // verus!
