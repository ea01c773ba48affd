//! The settings file: labels configured per path, and the repository a session belongs to.

use vstd::prelude::*;
use crate::paths::{
    ancestors, ancestors_of, depth, expand, expand_text, file_name, file_name_of, strings, opt_home, path_components, path_starts_with, same, same_path,
    is_absolute_path, law_expand_undoes_shorten, shorten, shorten_text, starts_with,
};
use crate::text::{
    chars_of, compare_chars, lemma_lex_asymmetric, lemma_lex_irreflexive, lemma_lex_total,
    lemma_lex_transitive, lex_lt, opt_string_view, KeyOrder,
};

verus! {

/// A JSON value from `serde_json`, carried through untouched.
#[verifier::external_type_specification]
#[verifier::external_body]
pub struct ExJsonValue(serde_json::Value);

/// The settings of one configured path.
pub struct Project {
    pub label: Option<String>,
    /// Keys dakoku does not know about, kept so hand-written settings survive a write.
    pub extra: Vec<(String, serde_json::Value)>,
}

impl Project {
    pub fn new() -> (p: Project)
        ensures
            p.label is None,
            p.extra@.len() == 0,
    {
        Project { label: None, extra: Vec::new() }
    }
}

/// The contents of `~/.dakoku/settings.json`: the configured paths in key order.
pub struct Settings {
    projects: Vec<(String, Project)>,
    /// Keys dakoku does not know about, kept so hand-written settings survive a write.
    extra: Vec<(String, serde_json::Value)>,
}

/// A configured path and its label, as the contracts see a project.
pub type ProjectView = (Seq<char>, Option<Seq<char>>);

pub open spec fn sorted_entries(v: Seq<ProjectView>) -> bool {
    forall|i: int, j: int| 0 <= i < j < v.len() ==> lex_lt(v[i].0, v[j].0)
}

/// Whether the configured key, once `~` is expanded, encloses `path`.
pub open spec fn encloses(key: Seq<char>, path: Seq<char>, home: Option<Seq<char>>) -> bool {
    match expand_text(key, home) {
        Some(configured) => path_starts_with(path, configured),
        None => false,
    }
}

/// The number of components of a configured key once expanded.
pub open spec fn key_depth(key: Seq<char>, home: Option<Seq<char>>) -> nat {
    match expand_text(key, home) {
        Some(configured) => path_components(configured).len(),
        None => 0,
    }
}

/// Entry `i` is the closest configured ancestor of `path`: it encloses `path`, no other
/// enclosing entry is deeper, and every earlier enclosing entry is shallower.
pub open spec fn is_closest(v: Seq<ProjectView>, i: int, path: Seq<char>, home: Option<Seq<char>>) -> bool {
    &&& 0 <= i < v.len()
    &&& encloses(v[i].0, path, home)
    &&& forall|j: int|
        0 <= j < v.len() && encloses(#[trigger] v[j].0, path, home) ==> key_depth(v[j].0, home)
            <= key_depth(v[i].0, home) && (j < i ==> key_depth(v[j].0, home) < key_depth(v[i].0, home))
}

/// The closest configured ancestor of `path`, if any entry encloses it.
pub open spec fn closest(v: Seq<ProjectView>, path: Seq<char>, home: Option<Seq<char>>) -> Option<int> {
    if exists|i: int| is_closest(v, i, path, home) {
        Some(choose|i: int| is_closest(v, i, path, home))
    } else {
        None
    }
}

pub proof fn lemma_closest_unique(v: Seq<ProjectView>, i: int, j: int, path: Seq<char>, home: Option<Seq<char>>)
    requires
        is_closest(v, i, path, home),
        is_closest(v, j, path, home),
    ensures
        i == j,
{
    assert(encloses(v[j].0, path, home));
    assert(encloses(v[i].0, path, home));
}

pub proof fn lemma_closest_is(v: Seq<ProjectView>, i: int, path: Seq<char>, home: Option<Seq<char>>)
    requires
        is_closest(v, i, path, home),
    ensures
        closest(v, path, home) == Some(i),
{
    let j = choose|j: int| is_closest(v, j, path, home);
    lemma_closest_unique(v, i, j, path, home);
}

/// The label that applies to `path`: that of its closest configured ancestor.
pub open spec fn label_at(v: Seq<ProjectView>, path: Seq<char>, home: Option<Seq<char>>) -> Option<Seq<char>> {
    match closest(v, path, home) {
        Some(i) => v[i].1,
        None => None,
    }
}

/// Whether the configured key, once `~` is expanded, names `path` itself.
pub open spec fn names(key: Seq<char>, path: Seq<char>, home: Option<Seq<char>>) -> bool {
    match expand_text(key, home) {
        Some(configured) => same_path(configured, path),
        None => false,
    }
}

pub open spec fn is_first_named(v: Seq<ProjectView>, i: int, path: Seq<char>, home: Option<Seq<char>>) -> bool {
    &&& 0 <= i < v.len()
    &&& names(v[i].0, path, home)
    &&& forall|j: int| 0 <= j < i ==> !names(#[trigger] v[j].0, path, home)
}

/// The first entry whose key names `path` itself.
pub open spec fn first_named(v: Seq<ProjectView>, path: Seq<char>, home: Option<Seq<char>>) -> Option<int> {
    if exists|i: int| is_first_named(v, i, path, home) {
        Some(choose|i: int| is_first_named(v, i, path, home))
    } else {
        None
    }
}

pub proof fn lemma_first_named_is(v: Seq<ProjectView>, i: int, path: Seq<char>, home: Option<Seq<char>>)
    requires
        is_first_named(v, i, path, home),
    ensures
        first_named(v, path, home) == Some(i),
{
    let j = choose|j: int| is_first_named(v, j, path, home);
    if j < i {
        assert(!names(v[j].0, path, home));
    } else if i < j {
        assert(!names(v[i].0, path, home));
    }
}

/// Where `key` belongs among sorted entries: the number of keys before it.
pub open spec fn slot(v: Seq<ProjectView>, key: Seq<char>) -> nat
    decreases v.len(),
{
    if v.len() == 0 {
        0
    } else if lex_lt(v[0].0, key) {
        slot(v.drop_first(), key) + 1
    } else {
        0
    }
}

pub proof fn lemma_slot(v: Seq<ProjectView>, key: Seq<char>, i: int)
    requires
        0 <= i <= v.len(),
        forall|j: int| 0 <= j < i ==> lex_lt(#[trigger] v[j].0, key),
        i == v.len() || !lex_lt(v[i].0, key),
    ensures
        slot(v, key) == i,
    decreases v.len(),
{
    if v.len() > 0 && i > 0 {
        assert(lex_lt(v[0].0, key));
        let t = v.drop_first();
        assert forall|j: int| 0 <= j < i - 1 implies lex_lt(#[trigger] t[j].0, key) by {
            assert(t[j] == v[j + 1]);
        }
        lemma_slot(t, key, i - 1);
    }
}

/// The entries with `key` set to `label`: in place when the key is there, else inserted
/// where it belongs.
pub open spec fn put_entry(v: Seq<ProjectView>, key: Seq<char>, label: Option<Seq<char>>) -> Seq<ProjectView> {
    let p = slot(v, key) as int;
    if p < v.len() && v[p].0 == key {
        v.update(p, (key, label))
    } else {
        v.insert(p, (key, label))
    }
}

proof fn lemma_slot_bounds(v: Seq<ProjectView>, key: Seq<char>)
    ensures
        slot(v, key) <= v.len(),
        forall|j: int| 0 <= j < slot(v, key) ==> lex_lt(#[trigger] v[j].0, key),
        slot(v, key) < v.len() ==> !lex_lt(v[slot(v, key) as int].0, key),
    decreases v.len(),
{
    if v.len() > 0 && lex_lt(v[0].0, key) {
        let t = v.drop_first();
        lemma_slot_bounds(t, key);
        assert forall|j: int| 0 <= j < slot(v, key) implies lex_lt(#[trigger] v[j].0, key) by {
            if j > 0 {
                assert(v[j] == t[j - 1]);
            }
        }
    }
}

pub proof fn lemma_put_entry_sorted(v: Seq<ProjectView>, key: Seq<char>, label: Option<Seq<char>>)
    requires
        sorted_entries(v),
    ensures
        sorted_entries(put_entry(v, key, label)),
{
    lemma_slot_bounds(v, key);
    let p = slot(v, key) as int;
    let w = put_entry(v, key, label);
    if p < v.len() && v[p].0 == key {
        assert forall|a: int, b: int| 0 <= a < b < w.len() implies lex_lt(w[a].0, w[b].0) by {
            assert(w[a].0 == v[a].0);
            assert(w[b].0 == v[b].0);
        }
    } else {
        if p < v.len() {
            lemma_lex_total(v[p].0, key);
        }
        assert forall|a: int, b: int| 0 <= a < b < w.len() implies lex_lt(w[a].0, w[b].0) by {
            if b < p {
                assert(w[a] == v[a] && w[b] == v[b]);
            } else if b == p {
                assert(w[b].0 == key);
                assert(w[a] == v[a]);
            } else if a == p {
                assert(w[a].0 == key);
                assert(w[b] == v[b - 1]);
                if b - 1 > p {
                    lemma_lex_transitive(key, v[p].0, v[b - 1].0);
                }
            } else if a < p {
                assert(w[a] == v[a]);
                assert(w[b] == v[b - 1]);
            } else {
                assert(w[a] == v[a - 1]);
                assert(w[b] == v[b - 1]);
            }
        }
    }
}

impl View for Settings {
    type V = Seq<ProjectView>;

    closed spec fn view(&self) -> Seq<ProjectView> {
        self.projects@.map_values(|e: (String, Project)| (e.0@, opt_string_view(e.1.label)))
    }
}

/// The list `xs`, kept beside the entries `v`, with `x` put where `put_entry(v, key, _)`
/// puts the entry of `key`.
pub open spec fn put_beside<X>(xs: Seq<X>, v: Seq<ProjectView>, key: Seq<char>, x: X) -> Seq<X> {
    let p = slot(v, key) as int;
    if p < v.len() && v[p].0 == key {
        xs.update(p, x)
    } else {
        xs.insert(p, x)
    }
}

impl Settings {
    /// The keys of each project that dakoku does not know about, in the order of `self@`.
    pub closed spec fn project_extras(self) -> Seq<Seq<(String, serde_json::Value)>> {
        self.projects@.map_values(|e: (String, Project)| e.1.extra@)
    }

    /// The top-level keys that dakoku does not know about.
    pub closed spec fn top_extra(self) -> Seq<(String, serde_json::Value)> {
        self.extra@
    }

    /// Keys are kept in `String` order with no key twice.
    pub open spec fn wf(self) -> bool {
        sorted_entries(self@)
    }

    /// Settings with nothing configured.
    pub fn new() -> (s: Settings)
        ensures
            s@.len() == 0,
            s.wf(),
            s.project_extras().len() == 0,
            s.top_extra().len() == 0,
    {
        let s = Settings { projects: Vec::new(), extra: Vec::new() };
        proof {
            assert(s@ =~= Seq::<ProjectView>::empty());
        }
        s
    }

    /// The configured projects in key order.
    pub fn projects(&self) -> (r: &Vec<(String, Project)>)
        ensures
            r@.map_values(|e: (String, Project)| (e.0@, opt_string_view(e.1.label))) == self@,
            r@.map_values(|e: (String, Project)| e.1.extra@) == self.project_extras(),
    {
        &self.projects
    }

    /// The top-level keys dakoku does not know about.
    pub fn extra(&self) -> (r: &Vec<(String, serde_json::Value)>)
        ensures
            r@ == self.top_extra(),
    {
        &self.extra
    }

    /// Replaces the top-level keys dakoku does not know about.
    pub fn set_extra(&mut self, extra: Vec<(String, serde_json::Value)>)
        ensures
            final(self)@ == old(self)@,
            final(self).project_extras() == old(self).project_extras(),
            final(self).top_extra() == extra@,
    {
        self.extra = extra;
    }

    /// Finds the configured project that most closely encloses `path`, as an index in key order.
    ///
    /// The longest match wins, so clocking in from a subdirectory still picks up
    /// the label configured on the repository root.
    pub fn resolve_index(&self, path: &str, home: Option<&str>) -> (r: Option<usize>)
        ensures
            match r {
                Some(i) => closest(self@, path@, opt_home(home)) == Some(i as int),
                None => closest(self@, path@, opt_home(home)) is None,
            },
    {
        let ghost v = self@;
        let ghost h = opt_home(home);
        let mut best: Option<(usize, usize)> = None;
        let mut i: usize = 0;
        while i < self.projects.len()
            invariant
                i <= self.projects.len(),
                v == self@,
                v.len() == self.projects.len(),
                h == opt_home(home),
                match best {
                    None => forall|j: int| 0 <= j < i ==> !encloses(#[trigger] v[j].0, path@, h),
                    Some((b, d)) => {
                        &&& b < i
                        &&& encloses(v[b as int].0, path@, h)
                        &&& d == key_depth(v[b as int].0, h)
                        &&& forall|j: int|
                            0 <= j < i && encloses(#[trigger] v[j].0, path@, h) ==> key_depth(v[j].0, h)
                                <= d && (j < b ==> key_depth(v[j].0, h) < d)
                    },
                },
            decreases self.projects.len() - i,
        {
            let key = &self.projects[i].0;
            proof {
                assert(v[i as int].0 == key@);
            }
            match expand(key.as_str(), home) {
                Ok(configured) => {
                    if starts_with(path, configured.as_str()) {
                        let d = depth(configured.as_str());
                        let better = match best {
                            None => true,
                            Some((_, current)) => d > current,
                        };
                        if better {
                            best = Some((i, d));
                        }
                    }
                },
                Err(_) => {},
            }
            i = i + 1;
        }
        match best {
            None => {
                proof {
                    if exists|k: int| is_closest(v, k, path@, h) {
                        let k = choose|k: int| is_closest(v, k, path@, h);
                        assert(encloses(v[k].0, path@, h));
                    }
                }
                None
            },
            Some((b, _)) => {
                proof {
                    assert(is_closest(v, b as int, path@, h));
                    lemma_closest_is(v, b as int, path@, h);
                }
                Some(b)
            },
        }
    }

    /// The closest configured project enclosing `path`: its key and settings.
    pub fn resolve(&self, path: &str, home: Option<&str>) -> (r: Option<(&String, &Project)>)
        ensures
            match closest(self@, path@, opt_home(home)) {
                Some(i) => r matches Some((k, p)) && k@ == self@[i].0 && opt_string_view(p.label)
                    == self@[i].1 && p.extra@ == self.project_extras()[i],
                None => r is None,
            },
    {
        match self.resolve_index(path, home) {
            Some(i) => {
                let entry = &self.projects[i];
                Some((&entry.0, &entry.1))
            },
            None => None,
        }
    }

    /// The label that applies to `path`.
    pub fn label_for(&self, path: &str, home: Option<&str>) -> (r: Option<String>)
        ensures
            opt_string_view(r) == label_at(self@, path@, opt_home(home)),
    {
        match self.resolve_index(path, home) {
            Some(i) => match &self.projects[i].1.label {
                Some(l) => Some(l.clone()),
                None => None,
            },
            None => None,
        }
    }

    /// The index of the first key that, expanded, names `path` itself.
    fn first_named_index(&self, path: &str, home: Option<&str>) -> (r: Option<usize>)
        ensures
            match r {
                Some(i) => first_named(self@, path@, opt_home(home)) == Some(i as int),
                None => first_named(self@, path@, opt_home(home)) is None,
            },
    {
        let ghost v = self@;
        let ghost h = opt_home(home);
        let mut i: usize = 0;
        while i < self.projects.len()
            invariant
                i <= self.projects.len(),
                v == self@,
                v.len() == self.projects.len(),
                h == opt_home(home),
                forall|j: int| 0 <= j < i ==> !names(#[trigger] v[j].0, path@, h),
            decreases self.projects.len() - i,
        {
            let key = &self.projects[i].0;
            proof {
                assert(v[i as int].0 == key@);
            }
            match expand(key.as_str(), home) {
                Ok(configured) => {
                    if same(configured.as_str(), path) {
                        proof {
                            lemma_first_named_is(v, i as int, path@, h);
                        }
                        return Some(i);
                    }
                },
                Err(_) => {},
            }
            i = i + 1;
        }
        proof {
            if exists|k: int| is_first_named(v, k, path@, h) {
                let k = choose|k: int| is_first_named(v, k, path@, h);
                assert(names(v[k].0, path@, h));
            }
        }
        None
    }

    /// Where `key` belongs among the keys, and whether it is already there.
    fn slot_of(&self, key: &String) -> (r: (usize, bool))
        requires
            self.wf(),
        ensures
            r.0 == slot(self@, key@),
            r.0 <= self.projects@.len(),
            r.1 == (r.0 < self@.len() && self@[r.0 as int].0 == key@),
    {
        let ghost v = self@;
        let kc = chars_of(key.as_str());
        let mut i: usize = 0;
        while i < self.projects.len()
            invariant
                i <= self.projects.len(),
                v == self@,
                v.len() == self.projects.len(),
                kc@ == key@,
                forall|j: int| 0 <= j < i ==> lex_lt(#[trigger] v[j].0, key@),
            decreases self.projects.len() - i,
        {
            let here = chars_of(self.projects[i].0.as_str());
            proof {
                assert(v[i as int].0 == here@);
            }
            match compare_chars(&here, &kc) {
                KeyOrder::Less => {},
                KeyOrder::Equal => {
                    proof {
                        lemma_lex_irreflexive(key@);
                        lemma_slot(v, key@, i as int);
                    }
                    return (i, true);
                },
                KeyOrder::Greater => {
                    proof {
                        lemma_lex_asymmetric(here@, key@);
                        lemma_slot(v, key@, i as int);
                    }
                    return (i, false);
                },
            }
            i = i + 1;
        }
        proof {
            lemma_slot(v, key@, i as int);
        }
        (i, false)
    }

    /// Stores `project` under `key`, replacing what was there.
    pub fn put_project(&mut self, key: String, project: Project)
        requires
            old(self).wf(),
        ensures
            final(self).wf(),
            final(self)@ == put_entry(old(self)@, key@, opt_string_view(project.label)),
            final(self).project_extras() == put_beside(old(self).project_extras(), old(self)@, key@, project.extra@),
            final(self).top_extra() == old(self).top_extra(),
    {
        let ghost v = self@;
        let ghost label = opt_string_view(project.label);
        let (p, present) = self.slot_of(&key);
        if present {
            let _ = self.projects.remove(p);
        }
        self.projects.insert(p, (key, project));
        proof {
            if present {
                assert(self@ =~= v.update(p as int, (key@, label)));
            } else {
                assert(self@ =~= v.insert(p as int, (key@, label)));
            }
            lemma_put_entry_sorted(v, key@, label);
        }
    }

    /// Sets the label under `key`, keeping the rest of its settings.
    fn put_label(&mut self, key: String, label: String)
        requires
            old(self).wf(),
        ensures
            final(self).wf(),
            final(self)@ == put_entry(old(self)@, key@, Some(label@)),
            final(self).project_extras() == put_beside(
                old(self).project_extras(),
                old(self)@,
                key@,
                kept_extra(old(self)@, old(self).project_extras(), key@),
            ),
            final(self).top_extra() == old(self).top_extra(),
    {
        let ghost v = self@;
        let (p, present) = self.slot_of(&key);
        let project = if present {
            let (_, mut existing) = self.projects.remove(p);
            existing.label = Some(label);
            existing
        } else {
            Project { label: Some(label), extra: Vec::new() }
        };
        self.projects.insert(p, (key, project));
        proof {
            if present {
                assert(self@ =~= v.update(p as int, (key@, Some(label@))));
            } else {
                assert(self@ =~= v.insert(p as int, (key@, Some(label@))));
            }
            lemma_put_entry_sorted(v, key@, Some(label@));
        }
    }

    /// Sets a label, reusing the existing key when the path is already configured; the
    /// key otherwise is the path with the home directory abbreviated to `~`.
    pub fn set_label(&mut self, path: &str, label: String, home: Option<&str>) -> (key: String)
        requires
            old(self).wf(),
        ensures
            final(self).wf(),
            key@ == label_key(old(self)@, path@, opt_home(home)),
            final(self)@ == put_entry(old(self)@, key@, Some(label@)),
            final(self).project_extras() == put_beside(
                old(self).project_extras(),
                old(self)@,
                key@,
                kept_extra(old(self)@, old(self).project_extras(), key@),
            ),
            final(self).top_extra() == old(self).top_extra(),
    {
        let key = match self.first_named_index(path, home) {
            Some(i) => self.projects[i].0.clone(),
            None => shorten(path, home),
        };
        self.put_label(key.clone(), label);
        key
    }

    /// Removes the settings of the first key that names `path`, returning that key.
    pub fn remove(&mut self, path: &str, home: Option<&str>) -> (r: Option<String>)
        requires
            old(self).wf(),
        ensures
            final(self).wf(),
            match first_named(old(self)@, path@, opt_home(home)) {
                Some(i) => r matches Some(k) && k@ == old(self)@[i].0 && final(self)@ == old(
                    self,
                )@.remove(i) && final(self).project_extras() == old(self).project_extras().remove(i),
                None => r is None && final(self)@ == old(self)@ && final(self).project_extras() == old(
                    self,
                ).project_extras(),
            },
            final(self)@ == without(old(self)@, path@, opt_home(home)),
            final(self).top_extra() == old(self).top_extra(),
    {
        let ghost v = self@;
        match self.first_named_index(path, home) {
            Some(i) => {
                let (key, _) = self.projects.remove(i);
                proof {
                    assert(self@ =~= v.remove(i as int));
                    assert forall|a: int, b: int| 0 <= a < b < self@.len() implies lex_lt(
                        self@[a].0,
                        self@[b].0,
                    ) by {
                        let a2 = if a < i { a } else { a + 1 };
                        let b2 = if b < i { b } else { b + 1 };
                        assert(self@[a] == v[a2]);
                        assert(self@[b] == v[b2]);
                    }
                }
                Some(key)
            },
            None => None,
        }
    }
}

/// The repository (or plain directory) a session belongs to.
#[derive(Clone, Debug)]
pub struct Location {
    pub root: String,
    pub label: Option<String>,
}

pub open spec fn is_first_marked(marked: Seq<bool>, n: int, i: int) -> bool {
    &&& 0 <= i < n
    &&& i < marked.len()
    &&& marked[i]
    &&& forall|j: int| 0 <= j < i ==> !#[trigger] marked[j]
}

/// The first of `dirs` marked as a repository, or `start` when none is.
pub open spec fn repository_root(start: Seq<char>, dirs: Seq<Seq<char>>, marked: Seq<bool>) -> Seq<char> {
    if exists|i: int| is_first_marked(marked, dirs.len() as int, i) {
        dirs[choose|i: int| is_first_marked(marked, dirs.len() as int, i)]
    } else {
        start
    }
}

/// The root is the nearest of `dirs` marked as a repository, however far up it lies.
pub proof fn law_root_is_the_nearest_marked(start: Seq<char>, dirs: Seq<Seq<char>>, marked: Seq<bool>, i: int)
    requires
        0 <= i < dirs.len(),
        i < marked.len(),
        marked[i],
        forall|j: int| 0 <= j < i ==> !#[trigger] marked[j],
    ensures
        repository_root(start, dirs, marked) == dirs[i],
{
    assert(is_first_marked(marked, dirs.len() as int, i));
    let k = choose|k: int| is_first_marked(marked, dirs.len() as int, k);
    if k < i {
        assert(!marked[k]);
    } else if i < k {
        assert(!marked[i]);
    }
}

/// With none of `dirs` marked as a repository, the root is `start` itself.
pub proof fn law_root_falls_back_to_the_start(start: Seq<char>, dirs: Seq<Seq<char>>, marked: Seq<bool>)
    requires
        forall|j: int| 0 <= j < dirs.len() && j < marked.len() ==> !#[trigger] marked[j],
    ensures
        repository_root(start, dirs, marked) == start,
{
    if exists|k: int| is_first_marked(marked, dirs.len() as int, k) {
        let k = choose|k: int| is_first_marked(marked, dirs.len() as int, k);
        assert(marked[k]);
    }
}

/// The name a location goes by: its label, else its directory name, else the whole path.
pub open spec fn location_name(root: Seq<char>, label: Option<Seq<char>>, home: Option<Seq<char>>) -> Seq<char> {
    match label {
        Some(l) => l,
        None => match file_name_of(root) {
            Some(name) => name,
            None => shorten_text(root, home),
        },
    }
}

impl Location {
    /// Walks up from `start` looking for a repository root, falling back to `start`.
    ///
    /// `is_repository[i]` says whether the `i`-th of `paths::ancestors(start)` holds a
    /// `.git` (a directory, or a file inside a worktree).
    pub fn detect(start: &str, is_repository: &Vec<bool>, settings: &Settings, home: Option<&str>) -> (l: Location)
        ensures
            l.root@ == repository_root(start@, ancestors_of(start@), is_repository@),
            opt_string_view(l.label) == label_at(settings@, l.root@, opt_home(home)),
    {
        let dirs = ancestors(start);
        let n = dirs.len();
        let mut i: usize = 0;
        while i < n && i < is_repository.len() && !is_repository[i]
            invariant
                i <= n == dirs.len(),
                i <= is_repository.len(),
                forall|j: int| 0 <= j < i ==> j < is_repository@.len() && !#[trigger] is_repository@[j],
            decreases n - i,
        {
            i = i + 1;
        }
        let ghost m = strings(dirs@).len() as int;
        let root = if i < n && i < is_repository.len() {
            proof {
                assert(is_first_marked(is_repository@, m, i as int));
                let k = choose|k: int| is_first_marked(is_repository@, m, k);
                if k < i {
                    assert(!is_repository@[k]);
                } else if i < k {
                    assert(!is_repository@[i as int]);
                }
            }
            dirs[i].clone()
        } else {
            proof {
                if exists|k: int| is_first_marked(is_repository@, m, k) {
                    let k = choose|k: int| is_first_marked(is_repository@, m, k);
                    assert(is_repository@[k]);
                }
            }
            start.to_string()
        };
        let label = settings.label_for(root.as_str(), home);
        Location { root, label }
    }

    /// The label to print: the configured one, else the directory name.
    pub fn display_name(&self, home: Option<&str>) -> (s: String)
        ensures
            s@ == location_name(self.root@, opt_string_view(self.label), opt_home(home)),
    {
        match &self.label {
            Some(l) => l.clone(),
            None => match file_name(self.root.as_str()) {
                Some(name) => name,
                None => shorten(self.root.as_str(), home),
            },
        }
    }
}

/// The key under which `set_label` stores the label of `path`: the first key that already
/// names it, else the path with the home directory abbreviated to `~`.
pub open spec fn label_key(v: Seq<ProjectView>, path: Seq<char>, home: Option<Seq<char>>) -> Seq<char> {
    match first_named(v, path, home) {
        Some(i) => v[i].0,
        None => shorten_text(path, home),
    }
}

proof fn lemma_encloses_depth(key: Seq<char>, path: Seq<char>, home: Option<Seq<char>>)
    ensures
        encloses(key, path, home) ==> key_depth(key, home) <= path_components(path).len(),
        encloses(key, path, home) && key_depth(key, home) == path_components(path).len() ==> names(
            key,
            path,
            home,
        ),
        names(key, path, home) ==> encloses(key, path, home) && key_depth(key, home)
            == path_components(path).len(),
{
    match expand_text(key, home) {
        Some(c) => {
            let pc = path_components(path);
            if path_starts_with(path, c) && path_components(c).len() == pc.len() {
                assert(pc.take(pc.len() as int) =~= pc);
            }
            if same_path(c, path) {
                assert(pc.take(pc.len() as int) =~= pc);
            }
        },
        None => {},
    }
}

proof fn lemma_first_named_exists(v: Seq<ProjectView>, p: int, path: Seq<char>, home: Option<Seq<char>>)
    requires
        0 <= p < v.len(),
        names(v[p].0, path, home),
    ensures
        first_named(v, path, home) is Some,
    decreases p,
{
    if exists|j: int| 0 <= j < p && names(#[trigger] v[j].0, path, home) {
        let j = choose|j: int| 0 <= j < p && names(#[trigger] v[j].0, path, home);
        lemma_first_named_exists(v, j, path, home);
    } else {
        assert(is_first_named(v, p, path, home));
    }
}

proof fn lemma_sorted_slot(v: Seq<ProjectView>, i: int)
    requires
        sorted_entries(v),
        0 <= i < v.len(),
    ensures
        slot(v, v[i].0) == i,
{
    lemma_lex_irreflexive(v[i].0);
    lemma_slot(v, v[i].0, i);
}

/// The unknown keys that a project under `key` keeps when its label is set: its own where
/// `key` is configured, else none.
pub open spec fn kept_extra(
    v: Seq<ProjectView>,
    xs: Seq<Seq<(String, serde_json::Value)>>,
    key: Seq<char>,
) -> Seq<(String, serde_json::Value)> {
    let p = slot(v, key) as int;
    if p < v.len() && v[p].0 == key {
        xs[p]
    } else {
        Seq::empty()
    }
}

/// The entries after `remove(path)`: without the first entry that names `path`.
pub open spec fn without(v: Seq<ProjectView>, path: Seq<char>, home: Option<Seq<char>>) -> Seq<ProjectView> {
    match first_named(v, path, home) {
        Some(i) => v.remove(i),
        None => v,
    }
}

/// Unsetting undoes setting: on an absolute path that no key names yet, `set_label(path, l)`
/// and then `remove(path)` leave the settings as they were, and `remove` returns the key
/// that `set_label` wrote: the path with the home directory abbreviated to `~`.
pub proof fn law_unset_undoes_set(
    v: Seq<ProjectView>,
    path: Seq<char>,
    label: Seq<char>,
    home: Option<Seq<char>>,
)
    requires
        sorted_entries(v),
        is_absolute_path(path),
        first_named(v, path, home) is None,
    ensures
        without(put_entry(v, label_key(v, path, home), Some(label)), path, home) == v,
        first_named(put_entry(v, label_key(v, path, home), Some(label)), path, home) matches Some(i)
            && put_entry(v, label_key(v, path, home), Some(label))[i].0 == shorten_text(path, home),
{
    let key = label_key(v, path, home);
    let w = put_entry(v, key, Some(label));
    lemma_slot_bounds(v, key);
    law_expand_undoes_shorten(path, home);
    assert(names(key, path, home));
    assert forall|j: int| 0 <= j < v.len() implies !names(#[trigger] v[j].0, path, home) by {
        if names(v[j].0, path, home) {
            lemma_first_named_exists(v, j, path, home);
        }
    }
    let p = slot(v, key) as int;
    if p < v.len() && v[p].0 == key {
        assert(names(v[p].0, path, home));
    }
    assert(w == v.insert(p, (key, Some(label))));
    assert forall|j: int| 0 <= j < p implies !names(#[trigger] w[j].0, path, home) by {
        assert(w[j] == v[j]);
    }
    assert(is_first_named(w, p, path, home));
    lemma_first_named_is(w, p, path, home);
    assert(w.remove(p) =~= v);
}

/// Setting a label on an absolute path makes it the label of that path: the key that
/// `set_label(path, l)` writes names the path (an existing one, which then keeps its place,
/// or a new one), and afterwards `label_for(path)` is `l`.
pub proof fn law_set_label_is_read_back(
    v: Seq<ProjectView>,
    path: Seq<char>,
    label: Seq<char>,
    home: Option<Seq<char>>,
)
    requires
        sorted_entries(v),
        is_absolute_path(path),
    ensures
        names(label_key(v, path, home), path, home),
        put_entry(v, label_key(v, path, home), Some(label)).len() == v.len() + if first_named(
            v,
            path,
            home,
        ) is Some {
            0int
        } else {
            1int
        },
        label_at(put_entry(v, label_key(v, path, home), Some(label)), path, home) == Some(label),
{
    let key = label_key(v, path, home);
    let w = put_entry(v, key, Some(label));
    lemma_slot_bounds(v, key);
    let q: int;
    match first_named(v, path, home) {
        Some(i) => {
            let i0 = choose|k: int| is_first_named(v, k, path, home);
            assert(is_first_named(v, i0, path, home));
            assert(i == i0);
            lemma_sorted_slot(v, i);
            assert(w == v.update(i, (key, Some(label))));
            q = i;
            assert(names(w[q].0, path, home));
            assert forall|j: int| 0 <= j < q implies !names(#[trigger] w[j].0, path, home) by {
                assert(w[j] == v[j]);
            }
        },
        None => {
            law_expand_undoes_shorten(path, home);
            assert(names(key, path, home));
            assert forall|j: int| 0 <= j < v.len() implies !names(#[trigger] v[j].0, path, home) by {
                if names(v[j].0, path, home) {
                    lemma_first_named_exists(v, j, path, home);
                }
            }
            let p = slot(v, key) as int;
            if p < v.len() && v[p].0 == key {
                assert(names(v[p].0, path, home));
            }
            assert(w == v.insert(p, (key, Some(label))));
            q = p;
            assert forall|j: int| 0 <= j < q implies !names(#[trigger] w[j].0, path, home) by {
                assert(w[j] == v[j]);
            }
        },
    }
    assert(w[q] == (key, Some(label)));
    lemma_encloses_depth(key, path, home);
    assert forall|j: int| 0 <= j < w.len() && encloses(#[trigger] w[j].0, path, home) implies key_depth(
        w[j].0,
        home,
    ) <= key_depth(w[q].0, home) && (j < q ==> key_depth(w[j].0, home) < key_depth(w[q].0, home)) by {
        lemma_encloses_depth(w[j].0, path, home);
    }
    assert(is_closest(w, q, path, home));
    lemma_closest_is(w, q, path, home);
}

} // verus!
