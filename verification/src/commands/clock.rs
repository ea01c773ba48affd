//! `in`, `out` and `status`: what a clock-in or clock-out decides, and the lines they print.

use vstd::prelude::*;
use crate::format::{clock, clock_text, duration, duration_text, push_str, title, title_text};
use crate::paths::{opt_home, shorten, shorten_text};
use crate::store::{keep_note, kept_note, record_name, Entry, Session};
use crate::text::{opt_str_view, opt_string_view};
use crate::time::Moment;

verus! {

/// Why a clock-in or clock-out was refused.
#[derive(Clone, Debug)]
pub enum ClockError {
    /// `out` with nothing clocked in.
    NotClockedIn,
    /// `in` while a session runs, without `--switch`: its name and start.
    AlreadyRunning { name: String, since: String },
    /// `in --switch` at a time before the running session started.
    SwitchBeforeRunning { at: String, running_since: String },
    /// `out` at a time before the session started.
    EndBeforeStart { at: String, started: String },
}

pub open spec fn clock_error_message(e: ClockError) -> Seq<char> {
    match e {
        ClockError::NotClockedIn => "打刻していません。dakoku in で開始してください"@,
        ClockError::AlreadyRunning { name, since } => name@ + " を "@ + since@
            + " から打刻中です\n先に dakoku out で締めるか、--switch を付けて切り替えてください"@,
        ClockError::SwitchBeforeRunning { at, running_since } => at@
            + " には切り替えられません。打刻中のセッションはより後の "@ + running_since@
            + " に開始しています"@,
        ClockError::EndBeforeStart { at, started } => at@ + " には終了できません。開始時刻はより後の "@
            + started@ + " です"@,
    }
}

impl ClockError {
    pub fn message(&self) -> (s: String)
        ensures
            s@ == clock_error_message(*self),
    {
        let mut out = String::new();
        match self {
            ClockError::NotClockedIn => {
                push_str(&mut out, "打刻していません。dakoku in で開始してください");
            },
            ClockError::AlreadyRunning { name, since } => {
                push_str(&mut out, name.as_str());
                push_str(&mut out, " を ");
                push_str(&mut out, since.as_str());
                push_str(&mut out, " から打刻中です\n先に dakoku out で締めるか、--switch を付けて切り替えてください");
            },
            ClockError::SwitchBeforeRunning { at, running_since } => {
                push_str(&mut out, at.as_str());
                push_str(&mut out, " には切り替えられません。打刻中のセッションはより後の ");
                push_str(&mut out, running_since.as_str());
                push_str(&mut out, " に開始しています");
            },
            ClockError::EndBeforeStart { at, started } => {
                push_str(&mut out, at.as_str());
                push_str(&mut out, " には終了できません。開始時刻はより後の ");
                push_str(&mut out, started.as_str());
                push_str(&mut out, " です");
            },
        }
        out
    }
}

pub open spec fn moment_clock(m: Moment) -> Seq<char> {
    clock_text(m.hour as int, m.minute as int)
}

/// The entry that a session becomes when it ends at `ended_at`.
pub open spec fn closed(s: Session, ended_at: Moment) -> Entry {
    Entry { path: s.path, label: s.label, note: s.note, started_at: s.started_at, ended_at }
}

/// `■ 09:30 → 11:45  A社ZZ案件 / CLI実装  2h15m`: a record just closed.
pub open spec fn closed_line_text(e: Entry) -> Seq<char> {
    "■ "@ + moment_clock(e.started_at) + " → "@ + moment_clock(e.ended_at) + "  "@ + title_text(
        record_name(opt_string_view(e.label), e.path@),
        opt_string_view(e.note),
    ) + "  "@ + duration_text(e.ended_at.instant - e.started_at.instant)
}

/// `▶ 09:30  A社ZZ案件 / CLI実装  2h15m`: a running session and how long it has run.
pub open spec fn running_line_text(s: Session, now: Moment) -> Seq<char> {
    "▶ "@ + moment_clock(s.started_at) + "  "@ + title_text(
        record_name(opt_string_view(s.label), s.path@),
        opt_string_view(s.note),
    ) + "  "@ + duration_text(now.instant - s.started_at.instant)
}

/// `▶ 09:30  A社ZZ案件 / CLI実装`: a session just started, under the name `name`.
pub open spec fn started_line_text(s: Session, name: Seq<char>) -> Seq<char> {
    "▶ "@ + moment_clock(s.started_at) + "  "@ + title_text(name, opt_string_view(s.note))
}

/// The status line of a running session is the line printed when it started, followed by
/// the time elapsed between the two instants.
pub proof fn law_status_is_the_start_line_and_the_time_since(s: Session, now: Moment)
    ensures
        running_line_text(s, now) == started_line_text(s, record_name(opt_string_view(s.label), s.path@))
            + "  "@ + duration_text(now.instant - s.started_at.instant),
{
}

/// Two readings of the same instant, in any zones, give the same status line: only the
/// time elapsed counts, not how a clock reads it.
pub proof fn law_status_depends_on_the_instant_only(s: Session, now: Moment, other: Moment)
    requires
        now.instant == other.instant,
    ensures
        running_line_text(s, now) == running_line_text(s, other),
{
}

fn note_ref(note: &Option<String>) -> (r: Option<&str>)
    ensures
        opt_str_view(r) == opt_string_view(*note),
{
    match note {
        Some(n) => Some(n.as_str()),
        None => None,
    }
}

/// The line printed for a record just closed.
pub fn closed_line(e: &Entry) -> (s: String)
    requires
        e.started_at.valid(),
        e.ended_at.valid(),
    ensures
        s@ == closed_line_text(*e),
{
    let mut out = String::new();
    push_str(&mut out, "■ ");
    push_str(&mut out, clock(&e.started_at).as_str());
    push_str(&mut out, " → ");
    push_str(&mut out, clock(&e.ended_at).as_str());
    push_str(&mut out, "  ");
    push_str(&mut out, title(e.display_name().as_str(), note_ref(&e.note)).as_str());
    push_str(&mut out, "  ");
    push_str(&mut out, duration(e.duration()).as_str());
    proof {
        assert(out@ =~= closed_line_text(*e));
    }
    out
}

/// The line printed for a running session.
pub fn running_line(s: &Session, now: &Moment) -> (r: String)
    requires
        s.started_at.valid(),
        now.valid(),
    ensures
        r@ == running_line_text(*s, *now),
{
    let mut out = String::new();
    push_str(&mut out, "▶ ");
    push_str(&mut out, clock(&s.started_at).as_str());
    push_str(&mut out, "  ");
    push_str(&mut out, title(s.display_name().as_str(), note_ref(&s.note)).as_str());
    push_str(&mut out, "  ");
    push_str(&mut out, duration(s.elapsed(now)).as_str());
    proof {
        assert(out@ =~= running_line_text(*s, *now));
    }
    out
}

/// The line printed for a session just started, under the name of its location.
pub fn started_line(s: &Session, name: &str) -> (r: String)
    requires
        s.started_at.valid(),
    ensures
        r@ == started_line_text(*s, name@),
{
    let mut out = String::new();
    push_str(&mut out, "▶ ");
    push_str(&mut out, clock(&s.started_at).as_str());
    push_str(&mut out, "  ");
    push_str(&mut out, title(name, note_ref(&s.note)).as_str());
    proof {
        assert(out@ =~= started_line_text(*s, name@));
    }
    out
}

/// A new session at the repository `root`: its path with `~` abbreviated, the label in
/// effect there, and the note unless it is blank.
pub fn new_session(root: &str, label: Option<String>, note: Option<String>, started_at: Moment, home: Option<&str>) -> (s: Session)
    ensures
        s.path@ == shorten_text(root@, opt_home(home)),
        s.label == label,
        opt_string_view(s.note) == kept_note(opt_string_view(note)),
        s.started_at == started_at,
{
    Session { path: shorten(root, home), label, note: keep_note(note), started_at }
}

/// What clocking in at `started_at` does to a running session: without `--switch` a
/// running session refuses it; with it, the running session is closed at `started_at`,
/// unless that is before it started.
pub fn plan_clock_in(running: Option<Session>, started_at: &Moment, switch: bool) -> (r: Result<Option<Entry>, ClockError>)
    requires
        started_at.valid(),
        running matches Some(s) ==> s.started_at.valid(),
    ensures
        match running {
            None => r matches Ok(None),
            Some(s) => if !switch {
                r matches Err(ClockError::AlreadyRunning { name, since }) && name@ == record_name(
                    opt_string_view(s.label),
                    s.path@,
                ) && since@ == moment_clock(s.started_at)
            } else if started_at.instant < s.started_at.instant {
                r matches Err(ClockError::SwitchBeforeRunning { at, running_since }) && at@
                    == moment_clock(*started_at) && running_since@ == moment_clock(s.started_at)
            } else {
                r matches Ok(Some(e)) && e == closed(s, *started_at)
            },
        },
{
    let running = match running {
        Some(s) => s,
        None => return Ok(None),
    };
    if !switch {
        return Err(ClockError::AlreadyRunning { name: running.display_name(), since: clock(&running.started_at) });
    }
    if started_at.instant < running.started_at.instant {
        return Err(ClockError::SwitchBeforeRunning { at: clock(started_at), running_since: clock(&running.started_at) });
    }
    Ok(Some(running.close(started_at.clone())))
}

/// What clocking out at `ended_at` does: the session closes there, unless that is before
/// it started.
pub fn plan_clock_out(session: Session, ended_at: Moment) -> (r: Result<Entry, ClockError>)
    requires
        session.started_at.valid(),
        ended_at.valid(),
    ensures
        if ended_at.instant < session.started_at.instant {
            r matches Err(ClockError::EndBeforeStart { at, started }) && at@ == moment_clock(ended_at)
                && started@ == moment_clock(session.started_at)
        } else {
            r matches Ok(e) && e == closed(session, ended_at)
        },
{
    if ended_at.instant < session.started_at.instant {
        return Err(ClockError::EndBeforeStart { at: clock(&ended_at), started: clock(&session.started_at) });
    }
    Ok(session.close(ended_at))
}

} // verus!
