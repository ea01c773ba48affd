//! Sessions that are clocked in, the entries they become, and the lines of the entry log.

use vstd::prelude::*;
use crate::paths::{file_name, file_name_of};
use crate::text::{chars_of, index_where, is_blank, lemma_index_where, opt_string_view, slice_chars, string_of, trimmed, find_char};
use crate::time::{Moment, Span};

verus! {

/// A session that has been clocked in but not yet clocked out.
#[derive(Debug)]
pub struct Session {
    /// Repository root, stored with `~` abbreviated.
    pub path: String,
    pub label: Option<String>,
    pub note: Option<String>,
    pub started_at: Moment,
}

/// A closed session, appended as one line of `entries.jsonl`.
///
/// The label is stored alongside the path rather than resolved at display time,
/// so renaming a project in the settings does not rewrite past records.
#[derive(Debug)]
pub struct Entry {
    pub path: String,
    pub label: Option<String>,
    pub note: Option<String>,
    pub started_at: Moment,
    pub ended_at: Moment,
}

pub fn clone_text(s: &Option<String>) -> (r: Option<String>)
    ensures
        r == *s,
{
    match s {
        Some(t) => Some(t.clone()),
        None => None,
    }
}

impl Clone for Session {
    fn clone(&self) -> (r: Session)
        ensures
            r == *self,
    {
        Session {
            path: self.path.clone(),
            label: clone_text(&self.label),
            note: clone_text(&self.note),
            started_at: self.started_at.clone(),
        }
    }
}

impl Clone for Entry {
    fn clone(&self) -> (r: Entry)
        ensures
            r == *self,
    {
        Entry {
            path: self.path.clone(),
            label: clone_text(&self.label),
            note: clone_text(&self.note),
            started_at: self.started_at.clone(),
            ended_at: self.ended_at.clone(),
        }
    }
}

/// The name a record goes by: its label, else the last component of its path, else the path.
pub open spec fn record_name(label: Option<Seq<char>>, path: Seq<char>) -> Seq<char> {
    match label {
        Some(l) => l,
        None => match file_name_of(path) {
            Some(name) => name,
            None => path,
        },
    }
}

fn display_name(label: &Option<String>, path: &str) -> (s: String)
    ensures
        s@ == record_name(opt_string_view(*label), path@),
{
    match label {
        Some(l) => l.clone(),
        None => match file_name(path) {
            Some(name) => name,
            None => path.to_string(),
        },
    }
}

/// The span from `from` to `to`.
pub fn span_between(from: &Moment, to: &Moment) -> (d: Span)
    requires
        from.valid(),
        to.valid(),
    ensures
        d.nanos == to.instant - from.instant,
        d.valid(),
{
    Span { nanos: to.instant - from.instant }
}

impl Session {
    pub fn elapsed(&self, now: &Moment) -> (d: Span)
        requires
            self.started_at.valid(),
            now.valid(),
        ensures
            d.nanos == now.instant - self.started_at.instant,
            d.valid(),
    {
        span_between(&self.started_at, now)
    }

    /// The entry that this session becomes when it ends at `ended_at`.
    pub fn close(self, ended_at: Moment) -> (e: Entry)
        ensures
            e.path == self.path,
            e.label == self.label,
            e.note == self.note,
            e.started_at == self.started_at,
            e.ended_at == ended_at,
    {
        Entry {
            path: self.path,
            label: self.label,
            note: self.note,
            started_at: self.started_at,
            ended_at,
        }
    }

    pub fn display_name(&self) -> (s: String)
        ensures
            s@ == record_name(opt_string_view(self.label), self.path@),
    {
        display_name(&self.label, self.path.as_str())
    }
}

impl Entry {
    pub fn duration(&self) -> (d: Span)
        requires
            self.started_at.valid(),
            self.ended_at.valid(),
        ensures
            d.nanos == self.ended_at.instant - self.started_at.instant,
            d.valid(),
    {
        span_between(&self.started_at, &self.ended_at)
    }

    pub fn display_name(&self) -> (s: String)
        ensures
            s@ == record_name(opt_string_view(self.label), self.path@),
    {
        display_name(&self.label, self.path.as_str())
    }
}

/// A note as it is kept: none when it is absent or only white space.
pub open spec fn kept_note(note: Option<Seq<char>>) -> Option<Seq<char>> {
    match note {
        Some(n) => if trimmed(n).len() == 0 {
            None
        } else {
            Some(n)
        },
        None => None,
    }
}

/// Drops a note that is only white space.
pub fn keep_note(note: Option<String>) -> (r: Option<String>)
    ensures
        opt_string_view(r) == kept_note(opt_string_view(note)),
{
    match note {
        Some(n) => if is_blank(n.as_str()) {
            None
        } else {
            Some(n)
        },
        None => None,
    }
}

/// `str::lines`: split at `\n`, a `\r` just before it dropped, with no empty line after a
/// final `\n`.
pub open spec fn lines_of(s: Seq<char>) -> Seq<Seq<char>>
    decreases s.len(),
{
    if s.len() == 0 {
        Seq::empty()
    } else {
        let k = index_where(s, |c: char| c == '\n');
        if k < s.len() {
            let line = s.take(k as int);
            let line = if line.len() > 0 && line.last() == '\r' {
                line.drop_last()
            } else {
                line
            };
            seq![line] + lines_of(s.skip(k as int + 1))
        } else {
            seq![s]
        }
    }
}

/// The lines from `lines[from..]` that hold something, each with its 1-based line number.
pub open spec fn numbered_records(lines: Seq<Seq<char>>, from: int) -> Seq<(int, Seq<char>)>
    decreases lines.len() - from,
{
    if from < 0 || from >= lines.len() {
        Seq::empty()
    } else if trimmed(lines[from]).len() == 0 {
        numbered_records(lines, from + 1)
    } else {
        seq![(from + 1, lines[from])] + numbered_records(lines, from + 1)
    }
}

/// The record lines of `entries.jsonl`: each line that is not blank, with its line number.
pub fn record_lines(raw: &str) -> (r: Vec<(usize, String)>)
    ensures
        r@.map_values(|e: (usize, String)| (e.0 as int, e.1@)) == numbered_records(lines_of(raw@), 0),
{
    let v = chars_of(raw);
    let n = v.len();
    let mut out: Vec<(usize, String)> = Vec::new();
    let mut i: usize = 0;
    let mut number: usize = 0;
    let ghost all = lines_of(v@);
    proof {
        assert(v@.subrange(0, n as int) =~= v@);
    }
    while i < n
        invariant
            i <= n == v.len(),
            all == lines_of(v@),
            number <= all.len(),
            number <= i,
            all == all.take(number as int) + lines_of(v@.subrange(i as int, n as int)),
            numbered_records(all, 0) == out@.map_values(|e: (usize, String)| (e.0 as int, e.1@))
                + numbered_records(all, number as int),
        decreases n - i,
    {
        let ghost sub = v@.subrange(i as int, n as int);
        let ghost before = out@.map_values(|e: (usize, String)| (e.0 as int, e.1@));
        let k = find_char(&v, i, n, '\n');
        let end = i + k;
        let mut line = slice_chars(&v, i, end);
        if end < n && line.len() > 0 && line[line.len() - 1] == '\r' {
            line.pop();
        }
        proof {
            assert(sub.take(k as int) =~= v@.subrange(i as int, end as int));
            let rest = if k < sub.len() {
                lines_of(sub.skip(k as int + 1))
            } else {
                Seq::<Seq<char>>::empty()
            };
            if k < sub.len() {
                assert(sub.skip(k as int + 1) =~= v@.subrange(end + 1, n as int));
                assert(lines_of(sub) == seq![line@] + rest);
            } else {
                assert(sub.take(k as int) =~= sub);
                assert(lines_of(sub) == seq![line@]);
                assert(seq![line@] =~= seq![line@] + rest);
            }
            assert(all =~= all.take(number as int) + (seq![line@] + rest));
            assert(all[number as int] == line@);
            assert(all.take(number + 1) =~= all.take(number as int).push(line@));
            assert(all =~= all.take(number + 1) + rest);
        }
        let text = string_of(&line);
        let blank = is_blank(text.as_str());
        number = number + 1;
        if !blank {
            out.push((number, text));
            proof {
                assert(out@.map_values(|e: (usize, String)| (e.0 as int, e.1@)) =~= before.push(
                    (number as int, line@),
                ));
            }
        }
        proof {
            let after = out@.map_values(|e: (usize, String)| (e.0 as int, e.1@));
            if blank {
                assert(after =~= before);
            } else {
                assert(before + numbered_records(all, number - 1) =~= after + numbered_records(all, number as int));
            }
        }
        i = if end < n {
            end + 1
        } else {
            n
        };
        proof {
            if end >= n {
                assert(v@.subrange(n as int, n as int) =~= Seq::<char>::empty());
            }
        }
    }
    proof {
        assert(v@.subrange(n as int, n as int) =~= Seq::<char>::empty());
        assert(all =~= all.take(number as int));
        assert(numbered_records(all, number as int) == Seq::<(int, Seq<char>)>::empty());
        assert(out@.map_values(|e: (usize, String)| (e.0 as int, e.1@)) + Seq::<(int, Seq<char>)>::empty() =~= out@.map_values(|e: (usize, String)| (e.0 as int, e.1@)));
    }
    out
}

} // verus!
