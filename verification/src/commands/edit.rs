//! `edit`: amending the running session, or the last record once it has been closed.

use vstd::prelude::*;
use crate::format::{clock, push_str};
use crate::commands::clock::moment_clock;
use crate::store::{keep_note, kept_note, Entry, Session};
use crate::text::opt_string_view;
use crate::time::Moment;
use crate::timearg::{at_overflows, at_reading, overflows, resolution, resolve, TimeArgError};

verus! {

/// Why an edit was refused.
#[derive(Clone, Debug)]
pub enum EditError {
    /// None of `--note`, `--in` and `--out` was given.
    NothingToChange,
    /// `--out` on a running session.
    RunningHasNoEnd,
    /// A new start in the future: its clock reading.
    StartInFuture(String),
    /// No record to amend.
    NoEntries,
    /// The end would come before the start: their clock readings.
    EndBeforeStart { end: String, start: String },
    /// A time that could not be resolved.
    Time(TimeArgError),
    /// A value of `--out` that is an offset whose seconds do not fit in an `i64`: the value.
    OffsetOverflow(String),
}

pub open spec fn edit_error_message(e: EditError) -> Seq<char> {
    match e {
        EditError::NothingToChange => "変更内容がありません。--note、--in、--out のいずれかを指定してください"@,
        EditError::RunningHasNoEnd => "打刻中のセッションです。締めるには dakoku out --at <時刻> を使ってください"@,
        EditError::StartInFuture(at) => at@ + " は未来の時刻です"@,
        EditError::NoEntries => "記録がまだありません"@,
        EditError::EndBeforeStart { end, start } => "終了 "@ + end@ + " が開始 "@ + start@
            + " より前になっています"@,
        EditError::Time(t) => crate::timearg::time_arg_message(t.problem, t.text@),
        EditError::OffsetOverflow(text) => text@ + " は扱える範囲を超えています"@,
    }
}

impl EditError {
    pub fn message(&self) -> (s: String)
        ensures
            s@ == edit_error_message(*self),
    {
        let mut out = String::new();
        match self {
            EditError::NothingToChange => {
                push_str(&mut out, "変更内容がありません。--note、--in、--out のいずれかを指定してください");
            },
            EditError::RunningHasNoEnd => {
                push_str(&mut out, "打刻中のセッションです。締めるには dakoku out --at <時刻> を使ってください");
            },
            EditError::StartInFuture(at) => {
                push_str(&mut out, at.as_str());
                push_str(&mut out, " は未来の時刻です");
            },
            EditError::NoEntries => {
                push_str(&mut out, "記録がまだありません");
            },
            EditError::EndBeforeStart { end, start } => {
                push_str(&mut out, "終了 ");
                push_str(&mut out, end.as_str());
                push_str(&mut out, " が開始 ");
                push_str(&mut out, start.as_str());
                push_str(&mut out, " より前になっています");
            },
            EditError::Time(t) => {
                return t.message();
            },
            EditError::OffsetOverflow(text) => {
                push_str(&mut out, text.as_str());
                push_str(&mut out, " は扱える範囲を超えています");
            },
        }
        out
    }
}

/// An edit must change something.
pub fn check_request(note: &Option<String>, start: &Option<String>, end: &Option<String>) -> (r: Result<(), EditError>)
    ensures
        r is Err <==> (note is None && start is None && end is None),
        r matches Err(e) ==> e == EditError::NothingToChange,
{
    if note.is_none() && start.is_none() && end.is_none() {
        Err(EditError::NothingToChange)
    } else {
        Ok(())
    }
}

/// The note after an edit: a new note replaces the old one (and a blank one removes it).
pub open spec fn edited_note(old: Option<Seq<char>>, new: Option<Seq<char>>) -> Option<Seq<char>> {
    match new {
        Some(n) => kept_note(Some(n)),
        None => old,
    }
}

fn edit_note(old: Option<String>, new: Option<String>) -> (r: Option<String>)
    ensures
        opt_string_view(r) == edited_note(opt_string_view(old), opt_string_view(new)),
{
    match new {
        Some(n) => keep_note(Some(n)),
        None => old,
    }
}

/// The outcome of resolving an optional value of `--in` or `--out` against `now`: none
/// when no value was given, else what `resolve` may give for it.
pub open spec fn resolved(raw: Option<&str>, now: Moment, o: Option<Result<Moment, TimeArgError>>) -> bool {
    match raw {
        None => o is None,
        Some(t) => o matches Some(x) && resolution(t@, now, x),
    }
}

/// The moment an outcome resolved to, if it did.
pub open spec fn moment_of(o: Option<Result<Moment, TimeArgError>>) -> Option<Moment> {
    match o {
        Some(Ok(m)) => Some(m),
        _ => None,
    }
}

/// What `amend_running` gives for a session, a note and a new start (already resolved).
pub open spec fn amended_session(
    session: Session,
    note: Option<String>,
    started_at: Option<Moment>,
    now: Moment,
    r: Result<Session, EditError>,
) -> bool {
    match started_at {
        Some(m) if m.instant > now.instant => r matches Err(EditError::StartInFuture(at)) && at@
            == moment_clock(m),
        _ => r matches Ok(s) && s.path == session.path && s.label == session.label && opt_string_view(
            s.note,
        ) == edited_note(opt_string_view(session.note), opt_string_view(note)) && s.started_at == (
        match started_at {
            Some(m) => m,
            None => session.started_at,
        }),
    }
}

/// What `amend_entry` gives for a record, a note and a new start and end (already
/// resolved).
pub open spec fn amended_entry(
    entry: Entry,
    note: Option<String>,
    started_at: Option<Moment>,
    ended_at: Option<Moment>,
    r: Result<Entry, EditError>,
) -> bool {
    let start = match started_at {
        Some(m) => m,
        None => entry.started_at,
    };
    let end = match ended_at {
        Some(m) => m,
        None => entry.ended_at,
    };
    if end.instant < start.instant {
        r matches Err(EditError::EndBeforeStart { end: e, start: s }) && e@ == moment_clock(end) && s@
            == moment_clock(start)
    } else {
        r matches Ok(x) && x.path == entry.path && x.label == entry.label && opt_string_view(x.note)
            == edited_note(opt_string_view(entry.note), opt_string_view(note)) && x.started_at == start
            && x.ended_at == end
    }
}

/// What `edit_running` gives once `--in` has come out as `so`: the refusal of `--in`, or
/// what `amend_running` gives.
pub open spec fn edited_session(
    session: Session,
    note: Option<String>,
    so: Option<Result<Moment, TimeArgError>>,
    now: Moment,
    r: Result<Session, EditError>,
) -> bool {
    match so {
        Some(Err(e)) => r == Err::<Session, EditError>(EditError::Time(e)),
        _ => amended_session(session, note, moment_of(so), now, r),
    }
}

/// The value of `--out`, when it is an offset whose seconds overflow an `i64`.
pub open spec fn end_overflow(end: Option<&str>) -> Option<Seq<char>> {
    match end {
        Some(t) => if at_overflows(t@) {
            Some(t@)
        } else {
            None
        },
        None => None,
    }
}

/// What `edit_last` gives once `--in` and `--out` have come out as `so` and `eo`: the
/// refusal of `--in`, else an overflowing `--out` (`overflow`), else the refusal of
/// `--out`, else what `amend_entry` gives as `out`.
pub open spec fn edited_entry(
    entry: Entry,
    note: Option<String>,
    so: Option<Result<Moment, TimeArgError>>,
    eo: Option<Result<Moment, TimeArgError>>,
    overflow: Option<Seq<char>>,
    out: Result<Entry, EditError>,
) -> bool {
    match so {
        Some(Err(e)) => out == Err::<Entry, EditError>(EditError::Time(e)),
        _ => match overflow {
            Some(t) => out matches Err(EditError::OffsetOverflow(x)) && x@ == t,
            None => match eo {
                Some(Err(e)) => out == Err::<Entry, EditError>(EditError::Time(e)),
                _ => amended_entry(entry, note, moment_of(so), moment_of(eo), out),
            },
        },
    }
}

/// Amends a running session with a new note and a new start (already resolved); a start
/// later than `now` is refused.
pub fn amend_running(session: Session, note: Option<String>, started_at: Option<Moment>, now: &Moment) -> (r: Result<Session, EditError>)
    requires
        now.valid(),
        started_at matches Some(m) ==> m.valid(),
    ensures
        amended_session(session, note, started_at, *now, r),
{
    let mut session = session;
    session.note = edit_note(session.note, note);
    if let Some(m) = started_at {
        if m.instant > now.instant {
            return Err(EditError::StartInFuture(clock(&m)));
        }
        session.started_at = m;
    }
    Ok(session)
}

/// Amends the running session from the values of `--note`, `--in` and `--out`, resolving
/// `--in` against `now`: `--out` is refused, a time that cannot be resolved is refused as
/// `resolve` refuses it, and the rest is as `amend_running` says.
pub fn edit_running(session: Session, note: Option<String>, start: Option<&str>, end_given: bool, now: &Moment) -> (r: Result<Session, EditError>)
    requires
        now.valid(),
        match start {
            Some(t) => !end_given ==> !at_overflows(t@),
            None => true,
        },
    ensures
        end_given ==> r matches Err(EditError::RunningHasNoEnd),
        !end_given && start is None ==> (r matches Ok(s) && s.path == session.path && s.label
            == session.label && opt_string_view(s.note) == edited_note(
            opt_string_view(session.note),
            opt_string_view(note),
        ) && s.started_at == session.started_at),
        r matches Ok(s) ==> s.path == session.path && s.label == session.label && opt_string_view(
            s.note,
        ) == edited_note(opt_string_view(session.note), opt_string_view(note)) && (start is Some
            ==> s.started_at.instant <= now.instant),
        !end_given ==> exists|so: Option<Result<Moment, TimeArgError>>|
            #[trigger] edited_session(session, note, so, *now, r) && resolved(start, *now, so),
{
    if end_given {
        return Err(EditError::RunningHasNoEnd);
    }
    let ghost s0 = session;
    let ghost n0 = note;
    let ghost mut so: Option<Result<Moment, TimeArgError>> = None;
    let started_at = match start {
        Some(raw) => {
            let res = resolve(raw, now);
            proof {
                so = Some(res);
            }
            match res {
                Ok(m) => Some(m),
                Err(e) => {
                    let r = Err(EditError::Time(e));
                    proof {
                        assert(edited_session(s0, n0, so, *now, r));
                    }
                    return r;
                },
            }
        },
        None => None,
    };
    let r = amend_running(session, note, started_at, now);
    proof {
        assert(moment_of(so) == started_at);
        assert(edited_session(s0, n0, so, *now, r));
    }
    r
}

/// Amends a closed record with a new note, start and end (already resolved); an end
/// before the start is refused.
pub fn amend_entry(entry: Entry, note: Option<String>, started_at: Option<Moment>, ended_at: Option<Moment>) -> (r: Result<Entry, EditError>)
    requires
        entry.started_at.valid(),
        entry.ended_at.valid(),
        started_at matches Some(m) ==> m.valid(),
        ended_at matches Some(m) ==> m.valid(),
    ensures
        amended_entry(entry, note, started_at, ended_at, r),
{
    let mut entry = entry;
    entry.note = edit_note(entry.note, note);
    if let Some(m) = started_at {
        entry.started_at = m;
    }
    if let Some(m) = ended_at {
        entry.ended_at = m;
    }
    if entry.ended_at.instant < entry.started_at.instant {
        return Err(EditError::EndBeforeStart { end: clock(&entry.ended_at), start: clock(&entry.started_at) });
    }
    Ok(entry)
}

/// Amends the last record from the values of `--note`, `--in` and `--out`, resolving the
/// times against `now` (`--in` first): no record, or a time that cannot be resolved, is
/// refused, and an `--out` offset too large to sum is reported as such; the rest is as
/// `amend_entry` says, and on success the last record is replaced.
pub fn edit_last(entries: &mut Vec<Entry>, note: Option<String>, start: Option<&str>, end: Option<&str>, now: &Moment) -> (r: Result<(), EditError>)
    requires
        now.valid(),
        forall|i: int| 0 <= i < old(entries)@.len() ==> (#[trigger] old(entries)@[i]).started_at.valid() && old(entries)@[i].ended_at.valid(),
        match start {
            Some(t) => old(entries)@.len() > 0 ==> !at_overflows(t@),
            None => true,
        },
    ensures
        old(entries)@.len() == 0 ==> r matches Err(EditError::NoEntries),
        r is Err ==> final(entries)@ == old(entries)@,
        r is Ok ==> final(entries)@.len() == old(entries)@.len() && final(entries)@.drop_last() == old(
            entries,
        )@.drop_last(),
        r is Ok ==> ({
            let x = final(entries)@.last();
            let e = old(entries)@.last();
            &&& x.path == e.path
            &&& x.label == e.label
            &&& opt_string_view(x.note) == edited_note(opt_string_view(e.note), opt_string_view(note))
            &&& start is None ==> x.started_at == e.started_at
            &&& end is None ==> x.ended_at == e.ended_at
            &&& x.started_at.instant <= x.ended_at.instant
        }),
        old(entries)@.len() > 0 ==> exists|
            so: Option<Result<Moment, TimeArgError>>,
            eo: Option<Result<Moment, TimeArgError>>,
            out: Result<Entry, EditError>,
        |
            #[trigger] edited_entry(old(entries)@.last(), note, so, eo, end_overflow(end), out) && resolved(
                start,
                *now,
                so,
            ) && (so matches Some(Err(_)) || end_overflow(end) is Some || resolved(end, *now, eo))
                && match out {
                Ok(x) => r is Ok && final(entries)@.last() == x,
                Err(e) => r == Err::<(), EditError>(e),
            },
{
    let n = entries.len();
    if n == 0 {
        return Err(EditError::NoEntries);
    }
    let ghost e0 = entries@.last();
    let ghost n0 = note;
    let ghost mut so: Option<Result<Moment, TimeArgError>> = None;
    let ghost mut eo: Option<Result<Moment, TimeArgError>> = None;
    let started_at = match start {
        Some(raw) => {
            let res = resolve(raw, now);
            proof {
                so = Some(res);
            }
            match res {
                Ok(m) => Some(m),
                Err(e) => {
                    proof {
                        let out = Err::<Entry, EditError>(EditError::Time(e));
                        assert(edited_entry(e0, n0, so, eo, end_overflow(end), out));
                    }
                    return Err(EditError::Time(e));
                },
            }
        },
        None => None,
    };
    let ended_at = match end {
        Some(raw) => {
            if overflows(raw) {
                let text = raw.to_string();
                proof {
                    let out = Err::<Entry, EditError>(EditError::OffsetOverflow(text));
                    assert(edited_entry(e0, n0, so, eo, end_overflow(end), out));
                }
                return Err(EditError::OffsetOverflow(text));
            }
            let res = resolve(raw, now);
            proof {
                eo = Some(res);
            }
            match res {
                Ok(m) => Some(m),
                Err(e) => {
                    proof {
                        let out = Err::<Entry, EditError>(EditError::Time(e));
                        assert(edited_entry(e0, n0, so, eo, end_overflow(end), out));
                    }
                    return Err(EditError::Time(e));
                },
            }
        },
        None => None,
    };
    let last = entries[n - 1].clone();
    let out = amend_entry(last, note, started_at, ended_at);
    proof {
        assert(moment_of(so) == started_at);
        assert(moment_of(eo) == ended_at);
        assert(edited_entry(e0, n0, so, eo, end_overflow(end), out));
    }
    match out {
        Ok(updated) => {
            let ghost before = entries@;
            entries.set(n - 1, updated);
            proof {
                assert(entries@.drop_last() =~= before.drop_last());
            }
            Ok(())
        },
        Err(e) => Err(e),
    }
}
} // verus!
