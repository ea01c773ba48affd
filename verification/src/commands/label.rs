//! `label`: the path a label command applies to, and what `list` and `show` print.

use vstd::prelude::*;
use crate::config::{closest, label_at, location_name, repository_root, Location, ProjectView, Settings};
use crate::format::{display_width, pad, padded, push_str, width};
use crate::paths::{
    ancestors_of, expand, expand_text, is_absolute_path, join, join_text, opt_home, same, same_path,
    shorten, shorten_text, PathError,
};
use crate::text::opt_string_view;

verus! {

/// The path a label command applies to, when `--path` is given: the path with `~`
/// expanded, relative to `cwd` unless absolute.
pub fn target_path(raw: &str, home: Option<&str>, cwd: &str) -> (r: Result<String, PathError>)
    ensures
        match expand_text(raw@, opt_home(home)) {
            Some(p) => r matches Ok(t) && t@ == (if is_absolute_path(p) {
                p
            } else {
                join_text(cwd@, p)
            }),
            None => r == Err::<String, PathError>(PathError::NoHome),
        },
{
    let expanded = expand(raw, home)?;
    let text = expanded.as_str();
    let absolute = text.unicode_len() > 0 && text.get_char(0) == '/';
    if absolute {
        Ok(expanded)
    } else {
        Ok(join(cwd, expanded.as_str()))
    }
}

/// A label, or `(未設定)` when there is none.
pub open spec fn label_or_unset(label: Option<Seq<char>>) -> Seq<char> {
    match label {
        Some(l) => l,
        None => "(未設定)"@,
    }
}

/// The width of the widest key.
pub open spec fn key_column(v: Seq<ProjectView>) -> nat
    decreases v.len(),
{
    if v.len() == 0 {
        0
    } else {
        let w = key_column(v.drop_last());
        let x = display_width(v.last().0) as nat;
        if x > w {
            x
        } else {
            w
        }
    }
}

/// What `label list` prints: each configured path, padded to the widest, and its label.
pub open spec fn list_text(v: Seq<ProjectView>) -> Seq<Seq<char>> {
    if v.len() == 0 {
        seq!["· 設定されたプロジェクトがありません"@]
    } else {
        v.map_values(|e: ProjectView| padded(e.0, key_column(v)) + "  "@ + label_or_unset(e.1))
    }
}

pub open spec fn text_lines(v: Seq<String>) -> Seq<Seq<char>> {
    v.map_values(|s: String| s@)
}

fn push_label_or_unset(out: &mut String, label: &Option<String>)
    ensures
        final(out)@ == old(out)@ + label_or_unset(opt_string_view(*label)),
{
    match label {
        Some(l) => push_str(out, l.as_str()),
        None => push_str(out, "(未設定)"),
    }
}

/// The lines of `label list`.
pub fn list_lines(settings: &Settings) -> (r: Vec<String>)
    ensures
        text_lines(r@) == list_text(settings@),
{
    let mut out: Vec<String> = Vec::new();
    let projects = settings.projects();
    let ghost v = settings@;
    if projects.len() == 0 {
        out.push("· 設定されたプロジェクトがありません".to_string());
        proof {
            assert(text_lines(out@) =~= list_text(v));
        }
        return out;
    }
    let mut w: usize = 0;
    let mut i: usize = 0;
    proof {
        assert(v.take(0) =~= Seq::<ProjectView>::empty());
    }
    while i < projects.len()
        invariant
            i <= projects.len(),
            v == projects@.map_values(|e: (String, crate::config::Project)| (e.0@, opt_string_view(e.1.label))),
            w == key_column(v.take(i as int)),
        decreases projects.len() - i,
    {
        proof {
            assert(v.take(i + 1).drop_last() =~= v.take(i as int));
            assert(v.take(i + 1).last() == v[i as int]);
        }
        let x = width(projects[i].0.as_str());
        if x > w {
            w = x;
        }
        i = i + 1;
    }
    proof {
        assert(v.take(projects.len() as int) =~= v);
    }
    let ghost lines = v.map_values(|e: ProjectView| padded(e.0, key_column(v)) + "  "@ + label_or_unset(e.1));
    i = 0;
    while i < projects.len()
        invariant
            i <= projects.len(),
            v == projects@.map_values(|e: (String, crate::config::Project)| (e.0@, opt_string_view(e.1.label))),
            w == key_column(v),
            lines == v.map_values(|e: ProjectView| padded(e.0, key_column(v)) + "  "@ + label_or_unset(e.1)),
            text_lines(out@) == lines.take(i as int),
        decreases projects.len() - i,
    {
        let mut line = pad(projects[i].0.as_str(), w);
        push_str(&mut line, "  ");
        push_label_or_unset(&mut line, &projects[i].1.label);
        let ghost before = text_lines(out@);
        out.push(line);
        proof {
            assert(text_lines(out@) =~= before.push(line@));
            assert(lines.take(i + 1) =~= lines.take(i as int).push(lines[i as int]));
        }
        i = i + 1;
    }
    proof {
        assert(lines.take(projects.len() as int) =~= lines);
    }
    out
}

/// What `label show` prints for `target`: the path, then the label in effect and, when it
/// comes from an ancestor, where from; or, with no label, the name used instead.
pub open spec fn show_text(v: Seq<ProjectView>, target: Seq<char>, marks: Seq<bool>, home: Option<Seq<char>>) -> Seq<Seq<char>> {
    seq![shorten_text(target, home)] + match closest(v, target, home) {
        Some(i) => seq!["  ラベル  "@ + label_or_unset(v[i].1)] + match expand_text(v[i].0, home) {
            Some(c) => if !same_path(c, target) {
                seq!["  継承元  "@ + v[i].0]
            } else {
                Seq::empty()
            },
            None => Seq::empty(),
        },
        None => {
            let root = repository_root(target, ancestors_of(target), marks);
            seq!["  ラベル  (未設定、"@ + location_name(root, label_at(v, root, home), home) + " を使用)"@]
        },
    }
}

/// The lines of `label show` for `target`; `is_repository` marks which of
/// `paths::ancestors(target)` holds a `.git`.
pub fn show_lines(settings: &Settings, target: &str, is_repository: &Vec<bool>, home: Option<&str>) -> (r: Vec<String>)
    ensures
        text_lines(r@) == show_text(settings@, target@, is_repository@, opt_home(home)),
{
    let mut out: Vec<String> = Vec::new();
    out.push(shorten(target, home));
    match settings.resolve(target, home) {
        Some((key, project)) => {
            let mut line = String::new();
            push_str(&mut line, "  ラベル  ");
            push_label_or_unset(&mut line, &project.label);
            out.push(line);
            match expand(key.as_str(), home) {
                Ok(configured) => {
                    if !same(configured.as_str(), target) {
                        let mut from = String::new();
                        push_str(&mut from, "  継承元  ");
                        push_str(&mut from, key.as_str());
                        out.push(from);
                    }
                },
                Err(_) => {},
            }
        },
        None => {
            let location = Location::detect(target, is_repository, settings, home);
            let mut line = String::new();
            push_str(&mut line, "  ラベル  (未設定、");
            push_str(&mut line, location.display_name(home).as_str());
            push_str(&mut line, " を使用)");
            out.push(line);
        },
    }
    proof {
        assert(text_lines(out@) =~= show_text(settings@, target@, is_repository@, opt_home(home)));
    }
    out
}

} // verus!
