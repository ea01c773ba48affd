//! Unix paths as text: their components, and the home-relative spelling used in settings.

use vstd::prelude::*;
use crate::format::push_str;
use crate::text::{lemma_index_where, opt_string_view, chars_of, find_char, index_where, slice_chars, string_of};

verus! {

/// The non-empty, non-`.` segments of `s` between `/` separators, in order.
pub open spec fn named_parts(s: Seq<char>) -> Seq<Seq<char>>
    decreases s.len(),
{
    let k = index_where(s, |c: char| c == '/');
    let segment = s.take(k as int);
    let rest = if k < s.len() {
        named_parts(s.skip(k as int + 1))
    } else {
        Seq::empty()
    };
    if segment.len() > 0 && segment != seq!['.'] {
        seq![segment] + rest
    } else {
        rest
    }
}

pub open spec fn root_component() -> Seq<char> {
    seq!['/']
}

pub open spec fn current_component() -> Seq<char> {
    seq!['.']
}

pub open spec fn is_absolute_path(p: Seq<char>) -> bool {
    p.len() > 0 && p[0] == '/'
}

/// Whether a relative path begins with a `.` segment, which `Path::components` keeps.
pub open spec fn starts_with_current(p: Seq<char>) -> bool {
    p.len() > 0 && p[0] == '.' && (p.len() == 1 || p[1] == '/')
}

/// `Path::components` on Unix: the root as `/`, a leading `.` as `.`, then the named
/// segments (empty and `.` segments are skipped, `..` is kept).
pub open spec fn path_components(p: Seq<char>) -> Seq<Seq<char>> {
    if is_absolute_path(p) {
        seq![root_component()] + named_parts(p)
    } else if starts_with_current(p) {
        seq![current_component()] + named_parts(p)
    } else {
        named_parts(p)
    }
}

/// `Path::starts_with`: whole components match.
pub open spec fn path_starts_with(p: Seq<char>, base: Seq<char>) -> bool {
    let a = path_components(p);
    let b = path_components(base);
    b.len() <= a.len() && a.take(b.len() as int) == b
}

/// `Path`'s `==`: the same components.
pub open spec fn same_path(a: Seq<char>, b: Seq<char>) -> bool {
    path_components(a) == path_components(b)
}

/// `Path::file_name`: the last component when it is a name (not the root, `.` or `..`).
pub open spec fn file_name_of(p: Seq<char>) -> Option<Seq<char>> {
    let cs = path_components(p);
    if cs.len() > 0 && cs.last() != root_component() && cs.last() != current_component()
        && cs.last() != seq!['.', '.'] {
        Some(cs.last())
    } else {
        None
    }
}

/// `PathBuf::push` on Unix: an absolute `rest` replaces `base`; otherwise a separator goes
/// between them unless `base` is empty or already ends in one.
pub open spec fn join_text(base: Seq<char>, rest: Seq<char>) -> Seq<char> {
    if is_absolute_path(rest) {
        rest
    } else if base.len() == 0 || base.last() == '/' {
        base + rest
    } else {
        base + seq!['/'] + rest
    }
}

/// The character sequences held by a vector of character vectors.
pub open spec fn char_vecs(v: Seq<Vec<char>>) -> Seq<Seq<char>> {
    v.map_values(|x: Vec<char>| x@)
}

pub fn seq_eq(a: &Vec<char>, b: &Vec<char>) -> (r: bool)
    ensures
        r == (a@ == b@),
{
    if a.len() != b.len() {
        return false;
    }
    let mut i: usize = 0;
    while i < a.len()
        invariant
            i <= a.len() == b.len(),
            forall|j: int| 0 <= j < i ==> a@[j] == b@[j],
        decreases a.len() - i,
    {
        if a[i] != b[i] {
            return false;
        }
        i = i + 1;
    }
    proof {
        assert(a@ =~= b@);
    }
    true
}

/// Appends the named segments of `v[lo..]` to `out`.
fn push_named_parts(v: &Vec<char>, lo: usize, out: &mut Vec<Vec<char>>)
    requires
        lo <= v.len(),
    ensures
        char_vecs(final(out)@) == char_vecs(old(out)@) + named_parts(v@.subrange(lo as int, v.len() as int)),
{
    let n = v.len();
    let ghost start = char_vecs(out@);
    let mut i = lo;
    loop
        invariant
            lo <= i <= n == v.len(),
            start == char_vecs(old(out)@),
            start + named_parts(v@.subrange(lo as int, n as int)) == char_vecs(out@) + named_parts(
                v@.subrange(i as int, n as int),
            ),
        decreases n - i,
    {
        let k = find_char(v, i, n, '/');
        let segment = slice_chars(v, i, i + k);
        let ghost s = v@.subrange(i as int, n as int);
        proof {
            assert(segment@ =~= s.take(k as int));
            if k < s.len() {
                assert(s.skip(k as int + 1) =~= v@.subrange(i + k + 1, n as int));
            }
        }
        let named = segment.len() > 0 && !(segment.len() == 1 && segment[0] == '.');
        proof {
            if segment.len() == 1 {
                if segment[0] == '.' {
                    assert(segment@ =~= seq!['.']);
                } else {
                    assert(segment@ != seq!['.']);
                }
            }
        }
        let ghost before = char_vecs(out@);
        proof {
            let rest_parts = if k < s.len() {
                named_parts(s.skip(k as int + 1))
            } else {
                Seq::<Seq<char>>::empty()
            };
            assert(named_parts(s) == (if named {
                seq![s.take(k as int)] + rest_parts
            } else {
                rest_parts
            }));
        }
        if named {
            out.push(segment);
            proof {
                assert(char_vecs(out@) =~= before.push(s.take(k as int)));
            }
        }
        if i + k >= n {
            proof {
                assert(k as int == s.len());
                assert(start + named_parts(v@.subrange(lo as int, n as int)) == before + named_parts(s));
                if named {
                    assert(seq![s.take(k as int)] + Seq::<Seq<char>>::empty() =~= seq![s.take(k as int)]);
                    assert(before + seq![s.take(k as int)] =~= char_vecs(out@));
                } else {
                    assert(before + Seq::<Seq<char>>::empty() =~= before);
                }
            }
            return;
        }
        proof {
            if named {
                assert(char_vecs(out@) + named_parts(v@.subrange(i + k + 1, n as int)) =~= before + (seq![s.take(k as int)] + named_parts(v@.subrange(i + k + 1, n as int))));
            }
        }
        i = i + k + 1;
    }
}

/// The components of `p`, as `path_components`.
pub fn components(p: &Vec<char>) -> (r: Vec<Vec<char>>)
    ensures
        char_vecs(r@) == path_components(p@),
{
    let mut out: Vec<Vec<char>> = Vec::new();
    if p.len() > 0 && p[0] == '/' {
        out.push(vec!['/']);
    } else if p.len() > 0 && p[0] == '.' && (p.len() == 1 || p[1] == '/') {
        out.push(vec!['.']);
    }
    proof {
        assert(p@.subrange(0, p.len() as int) =~= p@);
        if is_absolute_path(p@) {
            assert(out@[0]@ =~= root_component());
            assert(char_vecs(out@) =~= seq![root_component()]);
        } else if starts_with_current(p@) {
            assert(out@[0]@ =~= current_component());
            assert(char_vecs(out@) =~= seq![current_component()]);
        } else {
            assert(char_vecs(out@) =~= Seq::<Seq<char>>::empty());
        }
    }
    push_named_parts(p, 0, &mut out);
    out
}

/// Whether `b` is a prefix of `a`, component by component.
fn components_prefix(b: &Vec<Vec<char>>, a: &Vec<Vec<char>>) -> (r: bool)
    ensures
        r == (char_vecs(b@).len() <= char_vecs(a@).len() && char_vecs(a@).take(b@.len() as int)
            == char_vecs(b@)),
{
    if b.len() > a.len() {
        return false;
    }
    let mut i: usize = 0;
    while i < b.len()
        invariant
            i <= b.len() <= a.len(),
            forall|j: int| 0 <= j < i ==> a@[j]@ == b@[j]@,
        decreases b.len() - i,
    {
        if !seq_eq(&a[i], &b[i]) {
            proof {
                assert(char_vecs(a@).take(b@.len() as int)[i as int] != char_vecs(b@)[i as int]);
            }
            return false;
        }
        i = i + 1;
    }
    proof {
        assert(char_vecs(a@).take(b@.len() as int) =~= char_vecs(b@));
    }
    true
}

/// Whether `path` lies at or below `base`, comparing whole components.
pub fn starts_with(path: &str, base: &str) -> (r: bool)
    ensures
        r == path_starts_with(path@, base@),
{
    let a = components(&chars_of(path));
    let b = components(&chars_of(base));
    components_prefix(&b, &a)
}

/// Whether two spellings name the same path, component by component.
pub fn same(a: &str, b: &str) -> (r: bool)
    ensures
        r == same_path(a@, b@),
{
    let x = components(&chars_of(a));
    let y = components(&chars_of(b));
    let r = x.len() == y.len() && components_prefix(&y, &x);
    proof {
        assert(char_vecs(x@).len() == x.len());
        assert(char_vecs(y@).len() == y.len());
        if x.len() == y.len() {
            assert(char_vecs(x@).take(y@.len() as int) =~= char_vecs(x@));
        }
    }
    r
}

/// The number of components of `p`.
pub fn depth(p: &str) -> (n: usize)
    ensures
        n == path_components(p@).len(),
{
    components(&chars_of(p)).len()
}

/// The final component of `p` when it is a name.
pub fn file_name(p: &str) -> (r: Option<String>)
    ensures
        opt_string_view(r) == file_name_of(p@),
{
    let cs = components(&chars_of(p));
    let n = cs.len();
    if n == 0 {
        return None;
    }
    let last = &cs[n - 1];
    let is_root = last.len() == 1 && last[0] == '/';
    let is_current = last.len() == 1 && last[0] == '.';
    let is_parent = last.len() == 2 && last[0] == '.' && last[1] == '.';
    proof {
        let l = char_vecs(cs@).last();
        assert(l == last@);
        if last.len() == 1 {
            if last[0] == '/' {
                assert(l =~= root_component());
            } else {
                assert(l != root_component());
            }
            if last[0] == '.' {
                assert(l =~= current_component());
            } else {
                assert(l != current_component());
            }
        }
        if last.len() == 2 && last[0] == '.' && last[1] == '.' {
            assert(l =~= seq!['.', '.']);
        }
    }
    if is_root || is_current || is_parent {
        None
    } else {
        Some(string_of(last))
    }
}

fn join_chars(base: &Vec<char>, rest: &Vec<char>) -> (r: Vec<char>)
    ensures
        r@ == join_text(base@, rest@),
{
    if rest.len() > 0 && rest[0] == '/' {
        return slice_chars(rest, 0, rest.len());
    }
    let mut out = slice_chars(base, 0, base.len());
    if !(base.len() == 0 || base[base.len() - 1] == '/') {
        out.push('/');
    }
    let ghost head = out@;
    let mut i: usize = 0;
    while i < rest.len()
        invariant
            i <= rest.len(),
            out@ == head + rest@.take(i as int),
        decreases rest.len() - i,
    {
        out.push(rest[i]);
        i = i + 1;
        proof {
            assert(out@ =~= head + rest@.take(i as int));
        }
    }
    proof {
        assert(rest@.take(rest.len() as int) =~= rest@);
        assert(base@.subrange(0, base.len() as int) =~= base@);
        assert(out@ =~= join_text(base@, rest@));
    }
    out
}

/// `base` joined with `rest`, as `Path::join` does on Unix.
pub fn join(base: &str, rest: &str) -> (r: String)
    ensures
        r@ == join_text(base@, rest@),
{
    string_of(&join_chars(&chars_of(base), &chars_of(rest)))
}

/// Why a path could not be worked out.
#[derive(Clone, Copy, Debug, PartialEq, Eq, Structural)]
pub enum PathError {
    /// The home directory is unknown.
    NoHome,
}

impl PathError {
    pub fn message(&self) -> (s: String)
        ensures
            s@ == "ホームディレクトリを特定できませんでした"@,
    {
        "ホームディレクトリを特定できませんでした".to_string()
    }
}

pub open spec fn opt_home(home: Option<&str>) -> Option<Seq<char>> {
    match home {
        Some(h) => Some(h@),
        None => None,
    }
}

/// A leading `~` expanded against the home directory; `None` when that needs a home
/// directory that is unknown.
pub open spec fn expand_text(raw: Seq<char>, home: Option<Seq<char>>) -> Option<Seq<char>> {
    if raw == seq!['~'] {
        home
    } else if raw.len() >= 2 && raw[0] == '~' && raw[1] == '/' {
        match home {
            Some(h) => Some(join_text(h, raw.skip(2))),
            None => None,
        }
    } else {
        Some(raw)
    }
}

/// Expands a leading `~` so that settings written by hand keep working.
pub fn expand(raw: &str, home: Option<&str>) -> (r: Result<String, PathError>)
    ensures
        match expand_text(raw@, opt_home(home)) {
            Some(p) => r matches Ok(s) && s@ == p,
            None => r == Err::<String, PathError>(PathError::NoHome),
        },
{
    let v = chars_of(raw);
    let is_tilde = v.len() == 1 && v[0] == '~';
    proof {
        if v.len() == 1 && v[0] == '~' {
            assert(raw@ =~= seq!['~']);
        } else if v.len() != 1 {
            assert(raw@.len() != seq!['~'].len());
        } else {
            assert(raw@[0] != seq!['~'][0]);
        }
    }
    if is_tilde {
        return match home {
            Some(h) => Ok(h.to_string()),
            None => Err(PathError::NoHome),
        };
    }
    if v.len() >= 2 && v[0] == '~' && v[1] == '/' {
        return match home {
            Some(h) => {
                let rest = slice_chars(&v, 2, v.len());
                proof {
                    assert(rest@ =~= raw@.skip(2));
                }
                Ok(string_of(&join_chars(&chars_of(h), &rest)))
            },
            None => Err(PathError::NoHome),
        };
    }
    Ok(raw.to_string())
}

/// A segment that `Path::components` passes over: an empty one, or `.` (past the start).
pub open spec fn is_skipped(seg: Seq<char>) -> bool {
    seg.len() == 0 || seg == seq!['.']
}

/// The characters that the root, or a leading `.`, takes as the first component: one when
/// `p` starts with either.
pub open spec fn lead_len(p: Seq<char>) -> nat {
    if is_absolute_path(p) || starts_with_current(p) {
        1
    } else {
        0
    }
}

/// The first segment of `s`, up to its first separator.
pub open spec fn first_segment(s: Seq<char>) -> Seq<char> {
    s.take(index_where(s, |c: char| c == '/') as int)
}

/// `s` after its first segment and the separator that ends it.
pub open spec fn after_first_segment(s: Seq<char>) -> Seq<char> {
    let k = index_where(s, |c: char| c == '/');
    if k < s.len() {
        s.skip(k as int + 1)
    } else {
        Seq::empty()
    }
}

/// The index of the last separator in `s`, or `-1` when it has none.
pub open spec fn last_slash(s: Seq<char>) -> int
    decreases s.len(),
{
    if s.len() == 0 {
        -1
    } else if s.last() == '/' {
        s.len() - 1
    } else {
        last_slash(s.drop_last())
    }
}

/// The last segment of `s`, after its last separator.
pub open spec fn last_segment(s: Seq<char>) -> Seq<char> {
    s.skip(last_slash(s) + 1)
}

/// `s` before its last separator; empty when it has none.
pub open spec fn before_last_segment(s: Seq<char>) -> Seq<char> {
    if last_slash(s) >= 0 {
        s.take(last_slash(s))
    } else {
        Seq::empty()
    }
}

/// `s` without the segments at its start that `Path::components` passes over.
pub open spec fn trim_front(s: Seq<char>) -> Seq<char>
    decreases s.len(),
{
    if s.len() > 0 && is_skipped(first_segment(s)) {
        trim_front(after_first_segment(s))
    } else {
        s
    }
}

/// `s` without the segments at its end that `Path::components` passes over.
pub open spec fn trim_back(s: Seq<char>) -> Seq<char>
    decreases s.len(),
{
    if s.len() > 0 && is_skipped(last_segment(s)) {
        proof {
            lemma_last_slash(s);
        }
        trim_back(before_last_segment(s))
    } else {
        s
    }
}

/// `s` after its first `m` named segments and the separators that end them.
pub open spec fn skip_names(s: Seq<char>, m: nat) -> Seq<char>
    decreases s.len(),
{
    if m == 0 || s.len() == 0 {
        s
    } else if is_skipped(first_segment(s)) {
        skip_names(after_first_segment(s), m)
    } else {
        skip_names(after_first_segment(s), (m - 1) as nat)
    }
}

/// What `Path::strip_prefix` leaves of `p` once its first `k` components have matched, as
/// it prints: the text after them, without the segments at its ends that
/// `Path::components` passes over (at the start, only once a component has matched).
pub open spec fn strip_rest(p: Seq<char>, k: nat) -> Seq<char> {
    let f = lead_len(p);
    if k == 0 {
        p.take(f as int) + trim_back(p.skip(f as int))
    } else {
        trim_back(trim_front(skip_names(p.skip(f as int), (k - f) as nat)))
    }
}

/// A path with the home directory abbreviated back to `~`: the rest of the path after the
/// home directory, as `Path::strip_prefix` leaves it, behind `~/`.
pub open spec fn shorten_text(path: Seq<char>, home: Option<Seq<char>>) -> Seq<char> {
    match home {
        None => path,
        Some(h) => if path_starts_with(path, h) {
            let rest = strip_rest(path, path_components(h).len());
            if rest.len() == 0 {
                seq!['~']
            } else {
                seq!['~', '/'] + rest
            }
        } else {
            path
        },
    }
}

pub proof fn lemma_last_slash(s: Seq<char>)
    ensures
        -1 <= last_slash(s) < s.len(),
        last_slash(s) >= 0 ==> s[last_slash(s)] == '/',
        forall|j: int| last_slash(s) < j < s.len() ==> s[j] != '/',
    decreases s.len(),
{
    if s.len() > 0 && s.last() != '/' {
        lemma_last_slash(s.drop_last());
        assert forall|j: int| last_slash(s) < j < s.len() implies s[j] != '/' by {
            if j < s.len() - 1 {
                assert(s[j] == s.drop_last()[j]);
            }
        }
    }
}

proof fn lemma_last_slash_is(s: Seq<char>, j: int)
    requires
        -1 <= j < s.len(),
        j >= 0 ==> s[j] == '/',
        forall|t: int| j < t < s.len() ==> s[t] != '/',
    ensures
        last_slash(s) == j,
    decreases s.len(),
{
    if s.len() > 0 && j < s.len() - 1 {
        let t = s.drop_last();
        assert forall|x: int| j < x < t.len() implies t[x] != '/' by {
            assert(t[x] == s[x]);
        }
        lemma_last_slash_is(t, j);
    }
}

/// The start of `skip_names(v[lo..], m)` in `v`.
fn skip_names_from(v: &Vec<char>, lo: usize, m: usize) -> (i: usize)
    requires
        lo <= v.len(),
    ensures
        lo <= i <= v.len(),
        v@.subrange(i as int, v.len() as int) == skip_names(v@.subrange(lo as int, v.len() as int), m as nat),
{
    let n = v.len();
    let mut i = lo;
    let mut left = m;
    while left > 0 && i < n
        invariant
            lo <= i <= n == v.len(),
            skip_names(v@.subrange(lo as int, n as int), m as nat) == skip_names(
                v@.subrange(i as int, n as int),
                left as nat,
            ),
        decreases n - i,
    {
        let k = find_char(v, i, n, '/');
        let skipped = k == 0 || (k == 1 && v[i] == '.');
        proof {
            lemma_segment_at(v@, i as int, n as int, k as int);
        }
        i = if i + k < n {
            i + k + 1
        } else {
            n
        };
        if !skipped {
            left = left - 1;
        }
    }
    i
}

/// The start of `trim_front(v[lo..hi])` in `v`.
fn trim_front_start(v: &Vec<char>, lo: usize, hi: usize) -> (i: usize)
    requires
        lo <= hi <= v.len(),
    ensures
        lo <= i <= hi,
        v@.subrange(i as int, hi as int) == trim_front(v@.subrange(lo as int, hi as int)),
{
    let mut i = lo;
    loop
        invariant
            lo <= i <= hi <= v.len(),
            trim_front(v@.subrange(lo as int, hi as int)) == trim_front(v@.subrange(i as int, hi as int)),
        decreases hi - i,
    {
        if i == hi {
            return i;
        }
        let k = find_char(v, i, hi, '/');
        let skipped = k == 0 || (k == 1 && v[i] == '.');
        proof {
            lemma_segment_at(v@, i as int, hi as int, k as int);
        }
        if !skipped {
            return i;
        }
        i = if i + k < hi {
            i + k + 1
        } else {
            hi
        };
    }
}

/// The end of `trim_back(v[lo..hi])` in `v`.
fn trim_back_end(v: &Vec<char>, lo: usize, hi: usize) -> (j: usize)
    requires
        lo <= hi <= v.len(),
    ensures
        lo <= j <= hi,
        v@.subrange(lo as int, j as int) == trim_back(v@.subrange(lo as int, hi as int)),
{
    let mut h = hi;
    loop
        invariant
            lo <= h <= hi <= v.len(),
            trim_back(v@.subrange(lo as int, hi as int)) == trim_back(v@.subrange(lo as int, h as int)),
        decreases h - lo,
    {
        if h == lo {
            return h;
        }
        let i = last_segment_start(v, lo, h);
        let len = h - i;
        let skipped = len == 0 || (len == 1 && v[i] == '.');
        proof {
            let seg = v@.subrange(i as int, h as int);
            if len == 1 && v[i as int] == '.' {
                assert(seg =~= seq!['.']);
            } else if len == 1 {
                assert(seg[0] != seq!['.'][0]);
            }
        }
        if !skipped {
            return h;
        }
        h = if i > lo {
            i - 1
        } else {
            lo
        };
    }
}

/// The first segment of `v[i..hi]`, which `find_char` finds to be `k` long, and what
/// follows it.
proof fn lemma_segment_at(v: Seq<char>, i: int, hi: int, k: int)
    requires
        0 <= i <= hi <= v.len(),
        k == index_where(v.subrange(i, hi), |x: char| x == '/'),
        k <= hi - i,
    ensures
        first_segment(v.subrange(i, hi)) == v.subrange(i, i + k),
        after_first_segment(v.subrange(i, hi)) == v.subrange(if i + k < hi { i + k + 1 } else { hi }, hi),
        is_skipped(first_segment(v.subrange(i, hi))) <==> (k == 0 || (k == 1 && v[i] == '.')),
{
    let s = v.subrange(i, hi);
    assert(first_segment(s) =~= v.subrange(i, i + k));
    if i + k < hi {
        assert(after_first_segment(s) =~= v.subrange(i + k + 1, hi));
    } else {
        assert(after_first_segment(s) =~= v.subrange(hi, hi));
    }
    let seg = v.subrange(i, i + k);
    if k == 1 && v[i] == '.' {
        assert(seg =~= seq!['.']);
    } else if k == 1 {
        assert(seg[0] != seq!['.'][0]);
    } else if k != 0 {
        assert(seg.len() != seq!['.'].len());
    }
}

/// Renders a path with the home directory abbreviated back to `~`.
pub fn shorten(path: &str, home: Option<&str>) -> (r: String)
    ensures
        r@ == shorten_text(path@, opt_home(home)),
{
    let h = match home {
        Some(h) => h,
        None => return path.to_string(),
    };
    let v = chars_of(path);
    let pc = components(&v);
    let hc = components(&chars_of(h));
    if !components_prefix(&hc, &pc) {
        return path.to_string();
    }
    let n = v.len();
    let f: usize = if n > 0 && (v[0] == '/' || (v[0] == '.' && (n == 1 || v[1] == '/'))) {
        1
    } else {
        0
    };
    let k = hc.len();
    let rest = if k == 0 {
        let hi = trim_back_end(&v, f, n);
        proof {
            assert(v@.subrange(0, hi as int) =~= v@.take(f as int) + v@.subrange(f as int, hi as int));
            assert(v@.subrange(f as int, n as int) =~= v@.skip(f as int));
        }
        slice_chars(&v, 0, hi)
    } else {
        let start = skip_names_from(&v, f, k - f);
        let lo = trim_front_start(&v, start, n);
        let hi = trim_back_end(&v, lo, n);
        proof {
            assert(v@.subrange(f as int, n as int) =~= v@.skip(f as int));
        }
        slice_chars(&v, lo, hi)
    };
    let mut out = String::new();
    out.push('~');
    if rest.len() == 0 {
        return out;
    }
    out.push('/');
    push_str(&mut out, string_of(&rest).as_str());
    proof {
        assert(out@ =~= seq!['~', '/'] + rest@);
    }
    out
}

/// `Path::parent`: `p` without its last component, and without the segments before it that
/// `Path::components` passes over; `None` for the root alone, or a path with no component.
pub open spec fn parent_text(p: Seq<char>) -> Option<Seq<char>> {
    let f = lead_len(p);
    let t = trim_back(p.skip(f as int));
    if t.len() > 0 {
        Some(p.take(f as int) + trim_back(before_last_segment(t)))
    } else if starts_with_current(p) {
        Some(Seq::empty())
    } else {
        None
    }
}

/// A parent is a shorter prefix of its path.
pub proof fn lemma_parent_is_prefix(p: Seq<char>)
    ensures
        parent_text(p) matches Some(q) ==> q.len() < p.len() && q == p.take(q.len() as int),
{
    let f = lead_len(p);
    let t = trim_back(p.skip(f as int));
    lemma_trim_back(p.skip(f as int));
    if t.len() > 0 {
        lemma_last_slash(t);
        let b = before_last_segment(t);
        lemma_trim_back(b);
        let q = p.take(f as int) + trim_back(b);
        assert(q =~= p.take(q.len() as int));
    }
}

/// `Path::ancestors`: the path itself, then each parent in turn.
pub open spec fn ancestors_of(p: Seq<char>) -> Seq<Seq<char>>
    decreases p.len(),
{
    match parent_text(p) {
        Some(q) => {
            proof {
                lemma_parent_is_prefix(p);
            }
            seq![p] + ancestors_of(q)
        },
        None => seq![p],
    }
}

/// The strings held by a vector of strings.
pub open spec fn strings(v: Seq<String>) -> Seq<Seq<char>> {
    v.map_values(|s: String| s@)
}

/// The start of the last segment of `v[lo..hi]`: one past its last separator, or `lo`.
fn last_segment_start(v: &Vec<char>, lo: usize, hi: usize) -> (i: usize)
    requires
        lo <= hi <= v.len(),
    ensures
        lo <= i <= hi,
        last_slash(v@.subrange(lo as int, hi as int)) == i - lo - 1,
        last_segment(v@.subrange(lo as int, hi as int)) == v@.subrange(i as int, hi as int),
        before_last_segment(v@.subrange(lo as int, hi as int)) == v@.subrange(lo as int, if i > lo {
            i - 1
        } else {
            lo as int
        }),
{
    let ghost s = v@.subrange(lo as int, hi as int);
    let mut i = hi;
    while i > lo && v[i - 1] != '/'
        invariant
            lo <= i <= hi <= v.len(),
            forall|t: int| i <= t < hi ==> v@[t] != '/',
        decreases i - lo,
    {
        i = i - 1;
    }
    proof {
        let j = i - lo - 1;
        assert forall|t: int| j < t < s.len() implies s[t] != '/' by {
            assert(s[t] == v@[lo + t]);
        }
        lemma_last_slash_is(s, j);
        assert(last_segment(s) =~= v@.subrange(i as int, hi as int));
        if i > lo {
            assert(before_last_segment(s) =~= v@.subrange(lo as int, i - 1));
        } else {
            assert(before_last_segment(s) =~= v@.subrange(lo as int, lo as int));
        }
    }
    i
}

/// The number of characters of `v[..hi]` that the root or a leading `.` takes.
fn lead_of(v: &Vec<char>, hi: usize) -> (f: usize)
    requires
        hi <= v.len(),
    ensures
        f == lead_len(v@.take(hi as int)),
        f <= hi,
{
    if hi > 0 && (v[0] == '/' || (v[0] == '.' && (hi == 1 || v[1] == '/'))) {
        1
    } else {
        0
    }
}

/// The path and its ancestors, nearest first.
pub fn ancestors(p: &str) -> (r: Vec<String>)
    ensures
        strings(r@) == ancestors_of(p@),
{
    let v = chars_of(p);
    let mut out: Vec<String> = Vec::new();
    out.push(p.to_string());
    let mut hi = v.len();
    proof {
        assert(v@.take(hi as int) =~= p@);
        assert(strings(out@) =~= seq![p@]);
    }
    loop
        invariant
            hi <= v.len(),
            v@ == p@,
            ancestors_of(p@) == strings(out@).drop_last() + ancestors_of(v@.take(hi as int)),
            strings(out@).len() > 0,
            strings(out@).last() == v@.take(hi as int),
        decreases hi,
    {
        let ghost cur = v@.take(hi as int);
        let f = lead_of(&v, hi);
        let t_end = trim_back_end(&v, f, hi);
        proof {
            assert(v@.subrange(f as int, hi as int) =~= cur.skip(f as int));
            lemma_parent_is_prefix(cur);
        }
        let next: usize = if t_end > f {
            let i = last_segment_start(&v, f, t_end);
            let b_end = if i > f {
                i - 1
            } else {
                f
            };
            let q_end = trim_back_end(&v, f, b_end);
            proof {
                assert(v@.take(q_end as int) =~= cur.take(f as int) + v@.subrange(f as int, q_end as int));
            }
            q_end
        } else if hi > 0 && v[0] == '.' && (hi == 1 || v[1] == '/') {
            proof {
                assert(v@.take(0) =~= Seq::<char>::empty());
            }
            0
        } else {
            proof {
                assert(ancestors_of(cur) == seq![cur]);
                assert(strings(out@) =~= strings(out@).drop_last() + seq![cur]);
            }
            return out;
        };
        let ghost before = strings(out@);
        let q = string_of(&slice_chars(&v, 0, next));
        out.push(q);
        proof {
            assert(v@.subrange(0, next as int) =~= v@.take(next as int));
            assert(parent_text(cur) == Some(v@.take(next as int)));
            assert(strings(out@) =~= before.push(v@.take(next as int)));
            assert(strings(out@).drop_last() =~= before);
            assert(before =~= before.drop_last() + seq![cur]);
        }
        hi = next;
    }
}

/// Where dakoku keeps its data: the directory named by the override (the environment
/// variable `DAKOKU_HOME`) if there is one, else `.dakoku` in the home directory.
pub open spec fn data_dir_text(override_dir: Option<Seq<char>>, home: Option<Seq<char>>) -> Option<Seq<char>> {
    match override_dir {
        Some(d) => Some(d),
        None => match home {
            Some(h) => Some(join_text(h, ".dakoku"@)),
            None => None,
        },
    }
}

pub fn data_dir(override_dir: Option<&str>, home: Option<&str>) -> (r: Result<String, PathError>)
    ensures
        match data_dir_text(opt_home(override_dir), opt_home(home)) {
            Some(d) => r matches Ok(s) && s@ == d,
            None => r == Err::<String, PathError>(PathError::NoHome),
        },
{
    match override_dir {
        Some(d) => Ok(d.to_string()),
        None => match home {
            Some(h) => Ok(join(h, ".dakoku")),
            None => Err(PathError::NoHome),
        },
    }
}

pub fn settings_file(data_dir: &str) -> (r: String)
    ensures
        r@ == join_text(data_dir@, "settings.json"@),
{
    join(data_dir, "settings.json")
}

pub fn current_file(data_dir: &str) -> (r: String)
    ensures
        r@ == join_text(data_dir@, "current.json"@),
{
    join(data_dir, "current.json")
}

pub fn entries_file(data_dir: &str) -> (r: String)
    ensures
        r@ == join_text(data_dir@, "entries.jsonl"@),
{
    join(data_dir, "entries.jsonl")
}

proof fn lemma_index_where_before(s: Seq<char>, p: spec_fn(char) -> bool)
    ensures
        index_where(s, p) <= s.len(),
        forall|j: int| 0 <= j < index_where(s, p) ==> !p(#[trigger] s[j]),
        index_where(s, p) < s.len() ==> p(s[index_where(s, p) as int]),
    decreases s.len(),
{
    if s.len() > 0 && !p(s[0]) {
        let t = s.drop_first();
        lemma_index_where_before(t, p);
        assert forall|j: int| 0 <= j < index_where(s, p) implies !p(#[trigger] s[j]) by {
            if j > 0 {
                assert(s[j] == t[j - 1]);
            }
        }
    }
}

proof fn lemma_index_where_append(a: Seq<char>, b: Seq<char>, p: spec_fn(char) -> bool)
    ensures
        index_where(a, p) < a.len() ==> index_where(a + b, p) == index_where(a, p),
        index_where(a, p) >= a.len() ==> index_where(a + b, p) == a.len() + index_where(b, p),
    decreases a.len(),
{
    lemma_index_where_before(a, p);
    if a.len() > 0 {
        assert((a + b)[0] == a[0]);
        if !p(a[0]) {
            assert((a + b).drop_first() =~= a.drop_first() + b);
            lemma_index_where_append(a.drop_first(), b, p);
        }
    } else {
        assert(a + b =~= b);
    }
}

/// Splitting at a separator splits the named parts.
pub proof fn lemma_named_parts_split(a: Seq<char>, b: Seq<char>)
    ensures
        named_parts(a + seq!['/'] + b) == named_parts(a) + named_parts(b),
    decreases a.len(),
{
    let sep = |c: char| c == '/';
    let s = a + seq!['/'] + b;
    let k = index_where(a, sep);
    lemma_index_where_before(a, sep);
    lemma_index_where_append(a, seq!['/'] + b, sep);
    assert(s =~= a + (seq!['/'] + b));
    if k < a.len() {
        assert(index_where(s, sep) == k);
        assert(s.take(k as int) =~= a.take(k as int));
        assert(s.skip(k as int + 1) =~= a.skip(k as int + 1) + seq!['/'] + b);
        lemma_named_parts_split(a.skip(k as int + 1), b);
        let segment = a.take(k as int);
        if segment.len() > 0 && segment != seq!['.'] {
            assert(named_parts(s) =~= seq![segment] + named_parts(a.skip(k as int + 1)) + named_parts(b));
        } else {
            assert(named_parts(s) =~= named_parts(a.skip(k as int + 1)) + named_parts(b));
        }
    } else {
        assert((seq!['/'] + b)[0] == '/');
        assert(index_where(seq!['/'] + b, sep) == 0);
        assert(index_where(s, sep) == a.len());
        assert(s.take(a.len() as int) =~= a);
        assert(s.skip(a.len() as int + 1) =~= b);
        assert(a.take(k as int) =~= a);
        if a.len() > 0 && a != seq!['.'] {
            assert(named_parts(a) =~= seq![a] + Seq::<Seq<char>>::empty());
        } else {
            assert(named_parts(a) =~= Seq::<Seq<char>>::empty());
        }
        assert(named_parts(s) =~= named_parts(a) + named_parts(b));
    }
}

/// The components of `base` joined with a relative `rest`, when `base` is absolute.
proof fn lemma_join_components(base: Seq<char>, rest: Seq<char>)
    requires
        is_absolute_path(base),
        !is_absolute_path(rest),
    ensures
        path_components(join_text(base, rest)) == path_components(base) + named_parts(rest),
{
    let j = join_text(base, rest);
    assert(j[0] == '/');
    if base.last() == '/' {
        let front = base.drop_last();
        assert(base =~= front + seq!['/'] + Seq::<char>::empty());
        lemma_named_parts_split(front, Seq::<char>::empty());
        assert(j =~= front + seq!['/'] + rest);
        lemma_named_parts_split(front, rest);
        assert(named_parts(Seq::<char>::empty()) =~= Seq::<Seq<char>>::empty());
    } else {
        lemma_named_parts_split(base, rest);
    }
    assert(path_components(j) =~= path_components(base) + named_parts(rest));
}

proof fn lemma_named_parts_empty()
    ensures
        named_parts(Seq::<char>::empty()) == Seq::<Seq<char>>::empty(),
{
    let e = Seq::<char>::empty();
    assert(e.take(0) =~= e);
}

/// The named parts of `s`: its first segment, unless skipped, then those of the rest.
proof fn lemma_named_parts_front(s: Seq<char>)
    ensures
        named_parts(s) == if is_skipped(first_segment(s)) {
            named_parts(after_first_segment(s))
        } else {
            seq![first_segment(s)] + named_parts(after_first_segment(s))
        },
{
    lemma_named_parts_empty();
}

proof fn lemma_trim_front(s: Seq<char>)
    ensures
        named_parts(trim_front(s)) == named_parts(s),
        trim_front(s).len() > 0 ==> trim_front(s)[0] != '/',
    decreases s.len(),
{
    lemma_named_parts_front(s);
    if s.len() > 0 && is_skipped(first_segment(s)) {
        lemma_trim_front(after_first_segment(s));
    } else if s.len() > 0 {
        lemma_index_where_before(s, |c: char| c == '/');
        assert(index_where(s, |c: char| c == '/') > 0);
    }
}

proof fn lemma_skip_names(s: Seq<char>, m: nat)
    requires
        m <= named_parts(s).len(),
    ensures
        named_parts(skip_names(s, m)) == named_parts(s).skip(m as int),
    decreases s.len(),
{
    lemma_named_parts_front(s);
    if m == 0 {
        assert(named_parts(s).skip(0) =~= named_parts(s));
    } else if s.len() > 0 {
        let t = after_first_segment(s);
        if is_skipped(first_segment(s)) {
            lemma_skip_names(t, m);
        } else {
            lemma_skip_names(t, (m - 1) as nat);
            assert(named_parts(s).skip(m as int) =~= named_parts(t).skip(m - 1));
        }
    }
}

proof fn lemma_skipped_has_no_names(seg: Seq<char>)
    requires
        is_skipped(seg),
    ensures
        named_parts(seg) == Seq::<Seq<char>>::empty(),
{
    lemma_named_parts_front(seg);
    lemma_index_where_before(seg, |c: char| c == '/');
    if seg.len() == 1 {
        assert(seg[0] == '.');
        assert(first_segment(seg) =~= seg);
    }
    lemma_named_parts_empty();
}

proof fn lemma_trim_back(s: Seq<char>)
    ensures
        named_parts(trim_back(s)) == named_parts(s),
        trim_back(s).len() <= s.len(),
        trim_back(s) == s.take(trim_back(s).len() as int),
    decreases s.len(),
{
    if s.len() > 0 && is_skipped(last_segment(s)) {
        lemma_last_slash(s);
        let j = last_slash(s);
        let before = before_last_segment(s);
        let last = last_segment(s);
        lemma_trim_back(before);
        lemma_skipped_has_no_names(last);
        if j >= 0 {
            assert(s =~= before + seq!['/'] + last);
            lemma_named_parts_split(before, last);
            assert(named_parts(s) =~= named_parts(before));
            assert(trim_back(s) =~= s.take(trim_back(s).len() as int));
        } else {
            assert(last =~= s);
            lemma_named_parts_empty();
        }
    } else {
        assert(s.take(s.len() as int) =~= s);
    }
}

/// No named part is the root.
proof fn lemma_named_parts_not_root(s: Seq<char>)
    ensures
        forall|i: int| 0 <= i < named_parts(s).len() ==> named_parts(s)[i] != root_component(),
    decreases s.len(),
{
    lemma_named_parts_front(s);
    let seg = first_segment(s);
    let rest = after_first_segment(s);
    if s.len() > 0 {
        lemma_named_parts_not_root(rest);
    } else {
        lemma_named_parts_empty();
    }
    if !is_skipped(seg) {
        lemma_index_where_before(s, |c: char| c == '/');
        assert(seg[0] == s[0]);
        assert(seg != root_component());
        assert forall|i: int| 0 <= i < named_parts(s).len() implies named_parts(s)[i] != root_component() by {
            if i > 0 {
                assert(named_parts(s)[i] == named_parts(rest)[i - 1]);
            }
        }
    }
}

/// Expanding a shortened absolute path gives back the same path: `shorten` then
/// `expand` is the identity on absolute paths, component by component, whatever the home
/// directory.
pub proof fn law_expand_undoes_shorten(path: Seq<char>, home: Option<Seq<char>>)
    requires
        is_absolute_path(path),
    ensures
        expand_text(shorten_text(path, home), home) matches Some(p) && same_path(p, path),
{
    assert(path != seq!['~']);
    match home {
        None => {},
        Some(h) => {
            if path_starts_with(path, h) {
                let pc = path_components(path);
                let hc = path_components(h);
                let k = hc.len();
                let rest = pc.skip(k as int);
                assert(pc =~= hc + rest);
                // The root: the first segment of an absolute path is empty.
                lemma_index_where(path, |c: char| c == '/', 0);
                lemma_named_parts_front(path);
                assert(after_first_segment(path) =~= path.skip(1));
                assert(named_parts(path.skip(1)) == named_parts(path));
                if k == 0 {
                    // No home component: the rest keeps the whole path, root and all.
                    let tb = trim_back(path.skip(1));
                    lemma_trim_back(path.skip(1));
                    let r = strip_rest(path, 0);
                    assert(r =~= Seq::<char>::empty() + seq!['/'] + tb);
                    lemma_named_parts_split(Seq::<char>::empty(), tb);
                    lemma_named_parts_empty();
                    let raw = seq!['~', '/'] + r;
                    assert(raw.skip(2) =~= r);
                    assert(raw != seq!['~']);
                    assert(path_components(r) =~= path_components(path));
                } else {
                    // A home directory that matches a component is absolute too.
                    assert(hc[0] == pc[0]);
                    assert(pc[0] == root_component());
                    if !is_absolute_path(h) {
                        lemma_named_parts_not_root(h);
                        if starts_with_current(h) {
                            assert(hc[0] == current_component());
                            assert(current_component()[0] != root_component()[0]);
                        } else {
                            assert(hc == named_parts(h));
                            assert(hc[0] == named_parts(h)[0]);
                        }
                        assert(false);
                    }
                    let t = skip_names(path.skip(1), (k - 1) as nat);
                    lemma_skip_names(path.skip(1), (k - 1) as nat);
                    lemma_trim_front(t);
                    lemma_trim_back(trim_front(t));
                    let r = strip_rest(path, k);
                    assert(r == trim_back(trim_front(t)));
                    assert(named_parts(r) =~= rest);
                    if r.len() == 0 {
                        assert(rest.len() == 0);
                        assert(pc =~= hc);
                    } else {
                        assert(r[0] == trim_front(t)[0]);
                        let raw = seq!['~', '/'] + r;
                        assert(raw.skip(2) =~= r);
                        assert(raw != seq!['~']);
                        lemma_join_components(h, r);
                    }
                }
            }
        },
    }
}

} // verus!
