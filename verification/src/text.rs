//! Character-level helpers shared by the parsers and formatters.

use vstd::prelude::*;

verus! {

/// `String::push` appends one character.
pub assume_specification[ String::push ](s: &mut String, ch: char)
    ensures
        final(s)@ == old(s)@.push(ch),
;

/// Collects the characters of `s` in order.
pub fn chars_of(s: &str) -> (v: Vec<char>)
    ensures
        v@ == s@,
{
    let mut v: Vec<char> = Vec::new();
    for c in it: s.chars()
        invariant
            v@ == it.seq().take(it.index() as int),
            it.seq() == s@,
    {
        v.push(c);
    }
    v
}

} // verus!

verus! {

pub open spec fn opt_str_view(o: Option<&str>) -> Option<Seq<char>> {
    match o {
        Some(s) => Some(s@),
        None => None,
    }
}

pub open spec fn opt_string_view(o: Option<String>) -> Option<Seq<char>> {
    match o {
        Some(s) => Some(s@),
        None => None,
    }
}

pub open spec fn is_digit(c: char) -> bool {
    '0' <= c && c <= '9'
}

pub open spec fn digit_value(c: char) -> int {
    c as int - '0' as int
}

pub open spec fn all_digits(s: Seq<char>) -> bool {
    forall|i: int| 0 <= i < s.len() ==> is_digit(#[trigger] s[i])
}

/// The number that a run of decimal digits spells.
pub open spec fn decimal_value(s: Seq<char>) -> nat
    decreases s.len(),
{
    if s.len() == 0 {
        0
    } else {
        (decimal_value(s.drop_last()) * 10 + digit_value(s.last())) as nat
    }
}

pub open spec fn digit_char(d: nat) -> char {
    ('0' as int + d) as char
}

/// The canonical decimal spelling of `n`, without leading zeros.
pub open spec fn decimal_text(n: nat) -> Seq<char>
    decreases n,
{
    if n < 10 {
        seq![digit_char(n)]
    } else {
        decimal_text(n / 10).push(digit_char(n % 10))
    }
}

/// `n` in decimal, left-padded with zeros to at least `width` characters.
pub open spec fn zero_padded(n: nat, width: nat) -> Seq<char> {
    let digits = decimal_text(n);
    let fill: nat = if digits.len() < width { (width - digits.len()) as nat } else { 0 };
    Seq::new(fill, |i: int| '0') + digits
}

pub open spec fn pow10(k: nat) -> nat
    decreases k,
{
    if k == 0 {
        1
    } else {
        10 * pow10((k - 1) as nat)
    }
}

/// A number below `10^k` takes at most `k` digits.
pub proof fn lemma_decimal_len_bound(n: nat, k: nat)
    requires
        n < pow10(k),
        k >= 1,
    ensures
        decimal_text(n).len() <= k,
    decreases n,
{
    if n >= 10 {
        let p = pow10((k - 1) as nat);
        if k == 1 {
            assert(pow10(1) == 10) by {
                reveal_with_fuel(pow10, 2);
            }
        }
        assert(n < 10 * p);
        assert(n / 10 < p) by (nonlinear_arith)
            requires
                n < 10 * p,
        ;
        lemma_decimal_len_bound(n / 10, (k - 1) as nat);
    }
}

fn digit_to_char(d: u64) -> (c: char)
    requires
        d < 10,
    ensures
        c == digit_char(d as nat),
{
    let b: u8 = d as u8;
    (b + 48u8) as char
}

/// Appends the decimal spelling of `n`.
pub fn push_decimal(out: &mut String, n: u64)
    ensures
        final(out)@ == old(out)@ + decimal_text(n as nat),
    decreases n,
{
    if n >= 10 {
        push_decimal(out, n / 10);
    }
    let c = digit_to_char(n % 10);
    out.push(c);
}

pub fn decimal_len(n: u64) -> (len: usize)
    ensures
        len == decimal_text(n as nat).len(),
        1 <= len,
    decreases n,
{
    proof {
        assert(pow10(20) == 100000000000000000000) by {
            reveal_with_fuel(pow10, 21);
        }
        lemma_decimal_len_bound(n as nat, 20);
    }
    if n >= 10 {
        let k = decimal_len(n / 10);
        proof {
            assert(decimal_text(n as nat) == decimal_text((n / 10) as nat).push(digit_char((n % 10) as nat)));
        }
        k + 1
    } else {
        1
    }
}

/// Appends `n` zero-padded to `width` characters, as `{:0width$}` does.
pub fn push_zero_padded(out: &mut String, n: u64, width: usize)
    ensures
        final(out)@ == old(out)@ + zero_padded(n as nat, width as nat),
{
    let len = decimal_len(n);
    let ghost start = out@;
    let mut i: usize = len;
    while i < width
        invariant
            len <= width ==> len <= i <= width,
            len > width ==> i == len,
            len == decimal_text(n as nat).len(),
            out@ == start + Seq::new((i - len) as nat, |j: int| '0'),
        decreases width - i,
    {
        out.push('0');
        i = i + 1;
        proof {
            assert(out@ =~= start + Seq::new((i - len) as nat, |j: int| '0'));
        }
    }
    push_decimal(out, n);
    proof {
        let fill: nat = if len < width { (width - len) as nat } else { 0 };
        assert(Seq::new((i - len) as nat, |j: int| '0') =~= Seq::new(fill, |j: int| '0'));
        assert(out@ =~= old(out)@ + zero_padded(n as nat, width as nat));
    }
}

/// Unicode `White_Space`, the characters that `char::is_whitespace` accepts.
pub open spec fn is_space(c: char) -> bool {
    ||| '\t' <= c && c <= '\r'
    ||| c == ' '
    ||| c == '\u{85}'
    ||| c == '\u{a0}'
    ||| c == '\u{1680}'
    ||| '\u{2000}' <= c && c <= '\u{200a}'
    ||| c == '\u{2028}'
    ||| c == '\u{2029}'
    ||| c == '\u{202f}'
    ||| c == '\u{205f}'
    ||| c == '\u{3000}'
}

pub fn is_space_char(c: char) -> (r: bool)
    ensures
        r == is_space(c),
{
    ('\t' <= c && c <= '\r') || c == ' ' || c == '\u{85}' || c == '\u{a0}' || c == '\u{1680}' || (
    '\u{2000}' <= c && c <= '\u{200a}') || c == '\u{2028}' || c == '\u{2029}' || c == '\u{202f}'
        || c == '\u{205f}' || c == '\u{3000}'
}

pub open spec fn trim_start(s: Seq<char>) -> Seq<char>
    decreases s.len(),
{
    if s.len() > 0 && is_space(s[0]) {
        trim_start(s.drop_first())
    } else {
        s
    }
}

pub open spec fn trim_end(s: Seq<char>) -> Seq<char>
    decreases s.len(),
{
    if s.len() > 0 && is_space(s.last()) {
        trim_end(s.drop_last())
    } else {
        s
    }
}

/// `str::trim`: the text without leading and trailing white space.
pub open spec fn trimmed(s: Seq<char>) -> Seq<char> {
    trim_end(trim_start(s))
}

/// The bounds of the trimmed part of `v`.
pub fn trim_bounds(v: &Vec<char>) -> (r: (usize, usize))
    ensures
        r.0 <= r.1 <= v.len(),
        v@.subrange(r.0 as int, r.1 as int) == trimmed(v@),
{
    let n = v.len();
    let mut lo: usize = 0;
    proof {
        assert(v@.subrange(0, n as int) =~= v@);
    }
    while lo < n && is_space_char(v[lo])
        invariant
            lo <= n,
            n == v.len(),
            trim_start(v@) == trim_start(v@.subrange(lo as int, n as int)),
        decreases n - lo,
    {
        proof {
            let sub = v@.subrange(lo as int, n as int);
            assert(sub.drop_first() =~= v@.subrange(lo + 1, n as int));
        }
        lo = lo + 1;
    }
    proof {
        assert(v@.subrange(0, n as int) =~= v@);
        let sub = v@.subrange(lo as int, n as int);
        if lo == n {
            assert(sub.len() == 0);
        }
        assert(trim_start(v@) == sub);
    }
    let mut hi: usize = n;
    while hi > lo && is_space_char(v[hi - 1])
        invariant
            lo <= hi <= n,
            n == v.len(),
            trim_start(v@) == v@.subrange(lo as int, n as int),
            trimmed(v@) == trim_end(v@.subrange(lo as int, hi as int)),
        decreases hi - lo,
    {
        proof {
            let sub = v@.subrange(lo as int, hi as int);
            assert(sub.drop_last() =~= v@.subrange(lo as int, hi - 1));
        }
        hi = hi - 1;
    }
    (lo, hi)
}

/// Copies `v[lo..hi]`.
pub fn slice_chars(v: &Vec<char>, lo: usize, hi: usize) -> (r: Vec<char>)
    requires
        lo <= hi <= v.len(),
    ensures
        r@ == v@.subrange(lo as int, hi as int),
{
    let mut r: Vec<char> = Vec::new();
    let mut i = lo;
    while i < hi
        invariant
            lo <= i <= hi <= v.len(),
            r@ == v@.subrange(lo as int, i as int),
        decreases hi - i,
    {
        r.push(v[i]);
        i = i + 1;
        proof {
            assert(r@ =~= v@.subrange(lo as int, i as int));
        }
    }
    r
}

/// Builds a string from characters.
pub fn string_of(v: &Vec<char>) -> (s: String)
    ensures
        s@ == v@,
{
    let mut s = String::new();
    let mut i: usize = 0;
    while i < v.len()
        invariant
            i <= v.len(),
            s@ == v@.subrange(0, i as int),
        decreases v.len() - i,
    {
        s.push(v[i]);
        i = i + 1;
        proof {
            assert(s@ =~= v@.subrange(0, i as int));
        }
    }
    proof {
        assert(v@.subrange(0, v.len() as int) =~= v@);
    }
    s
}

/// Whether the text is empty once trimmed, as `text.trim().is_empty()`.
pub fn is_blank(text: &str) -> (r: bool)
    ensures
        r == (trimmed(text@).len() == 0),
{
    let v = chars_of(text);
    let (lo, hi) = trim_bounds(&v);
    lo == hi
}

/// The index of the first character of `s` that satisfies `p`, or `s.len()` when none does.
pub open spec fn index_where(s: Seq<char>, p: spec_fn(char) -> bool) -> nat
    decreases s.len(),
{
    if s.len() == 0 {
        0
    } else if p(s[0]) {
        0
    } else {
        index_where(s.drop_first(), p) + 1
    }
}

pub proof fn lemma_index_where(s: Seq<char>, p: spec_fn(char) -> bool, i: int)
    requires
        0 <= i <= s.len(),
        forall|j: int| 0 <= j < i ==> !p(#[trigger] s[j]),
        i == s.len() || p(s[i]),
    ensures
        index_where(s, p) == i,
    decreases s.len(),
{
    if s.len() > 0 && i > 0 {
        assert(!p(s[0]));
        let t = s.drop_first();
        assert forall|j: int| 0 <= j < i - 1 implies !p(#[trigger] t[j]) by {
            assert(t[j] == s[j + 1]);
        }
        lemma_index_where(t, p, i - 1);
    }
}

/// The index of the first `c` in `v[lo..hi]`, counted from `lo`, or `hi - lo` when there is none.
pub fn find_char(v: &Vec<char>, lo: usize, hi: usize, c: char) -> (k: usize)
    requires
        lo <= hi <= v.len(),
    ensures
        k == index_where(v@.subrange(lo as int, hi as int), |x: char| x == c),
        k <= hi - lo,
{
    let ghost s = v@.subrange(lo as int, hi as int);
    let mut i = lo;
    while i < hi && v[i] != c
        invariant
            lo <= i <= hi <= v.len(),
            s == v@.subrange(lo as int, hi as int),
            forall|j: int| 0 <= j < i - lo ==> #[trigger] s[j] != c,
        decreases hi - i,
    {
        i = i + 1;
    }
    proof {
        lemma_index_where(s, |x: char| x == c, (i - lo) as int);
    }
    i - lo
}

/// Rust's reading of an integer: an optional `+` or `-`, then one or more ASCII digits.
pub open spec fn integer_value(s: Seq<char>) -> Option<int> {
    let negative = s.len() > 0 && s[0] == '-';
    let digits = if s.len() > 0 && (s[0] == '+' || s[0] == '-') {
        s.drop_first()
    } else {
        s
    };
    if digits.len() > 0 && all_digits(digits) {
        Some(if negative { -decimal_value(digits) } else { decimal_value(digits) as int })
    } else {
        None
    }
}

/// `str::parse::<i8>`.
pub open spec fn i8_value(s: Seq<char>) -> Option<i8> {
    match integer_value(s) {
        Some(v) => if -128 <= v <= 127 {
            Some(v as i8)
        } else {
            None
        },
        None => None,
    }
}

pub proof fn lemma_push_digit(digits: Seq<char>, c: char)
    requires
        is_digit(c),
    ensures
        decimal_value(digits.push(c)) == decimal_value(digits) * 10 + digit_value(c),
{
    assert(digits.push(c).drop_last() =~= digits);
}

/// Reads `v[lo..hi]` as an `i8`, as `str::parse::<i8>` does.
pub fn read_i8(v: &Vec<char>, lo: usize, hi: usize) -> (r: Option<i8>)
    requires
        lo <= hi <= v.len(),
    ensures
        r == i8_value(v@.subrange(lo as int, hi as int)),
{
    let ghost s = v@.subrange(lo as int, hi as int);
    let negative = lo < hi && v[lo] == '-';
    let start = if lo < hi && (v[lo] == '+' || v[lo] == '-') {
        lo + 1
    } else {
        lo
    };
    let ghost digits = v@.subrange(start as int, hi as int);
    proof {
        if lo < hi && (v[lo as int] == '+' || v[lo as int] == '-') {
            assert(s.drop_first() =~= digits);
        } else {
            assert(s =~= digits);
        }
    }
    if start == hi {
        return None;
    }
    proof {
        assert(integer_value(s) == (if all_digits(digits) {
            Some(if negative { -(decimal_value(digits) as int) } else { decimal_value(digits) as int })
        } else {
            None::<int>
        }));
        assert(v@.subrange(start as int, start as int) =~= Seq::<char>::empty());
    }
    let mut value: u32 = 0;
    let mut i = start;
    while i < hi
        invariant
            lo <= start <= i <= hi <= v.len(),
            start < hi,
            digits == v@.subrange(start as int, hi as int),
            s == v@.subrange(lo as int, hi as int),
            integer_value(s) == (if all_digits(digits) {
                Some(if negative { -(decimal_value(digits) as int) } else { decimal_value(digits) as int })
            } else {
                None::<int>
            }),
            all_digits(v@.subrange(start as int, i as int)),
            value == decimal_value(v@.subrange(start as int, i as int)),
            value <= 128,
        decreases hi - i,
    {
        let c = v[i];
        if !('0' <= c && c <= '9') {
            proof {
                assert(digits[i - start] == c);
            }
            return None;
        }
        let d: u32 = c as u32 - '0' as u32;
        proof {
            lemma_push_digit(v@.subrange(start as int, i as int), c);
            assert(v@.subrange(start as int, i + 1) =~= v@.subrange(start as int, i as int).push(c));
        }
        let next = value * 10 + d;
        i = i + 1;
        if next > 128 {
            // Every further digit only makes the magnitude larger.
            let mut j = i;
            while j < hi
                invariant
                    start < i <= j <= hi <= v.len(),
                    digits == v@.subrange(start as int, hi as int),
                    s == v@.subrange(lo as int, hi as int),
                    integer_value(s) == (if all_digits(digits) {
                        Some(if negative { -(decimal_value(digits) as int) } else { decimal_value(digits) as int })
                    } else {
                        None::<int>
                    }),
                    all_digits(v@.subrange(start as int, j as int)),
                    decimal_value(v@.subrange(start as int, j as int)) > 128,
                decreases hi - j,
            {
                let c2 = v[j];
                if !('0' <= c2 && c2 <= '9') {
                    proof {
                        assert(digits[j - start] == c2);
                    }
                    return None;
                }
                proof {
                    lemma_push_digit(v@.subrange(start as int, j as int), c2);
                    assert(v@.subrange(start as int, j + 1) =~= v@.subrange(start as int, j as int).push(c2));
                }
                j = j + 1;
            }
            proof {
                assert(v@.subrange(start as int, hi as int) == digits);
            }
            return None;
        }
        value = next;
    }
    proof {
        assert(v@.subrange(start as int, hi as int) == digits);
    }
    if negative {
        Some((0 - value as i32) as i8)
    } else if value <= 127 {
        Some(value as i8)
    } else {
        None
    }
}

/// The order of `String`: lexicographic by character, a proper prefix first. (UTF-8
/// keeps the order of code points, so this is also the order of the bytes.)
pub open spec fn lex_lt(a: Seq<char>, b: Seq<char>) -> bool
    decreases a.len(),
{
    if a.len() == 0 {
        b.len() > 0
    } else if b.len() == 0 {
        false
    } else if a[0] < b[0] {
        true
    } else if a[0] == b[0] {
        lex_lt(a.drop_first(), b.drop_first())
    } else {
        false
    }
}

pub proof fn lemma_lex_irreflexive(a: Seq<char>)
    ensures
        !lex_lt(a, a),
    decreases a.len(),
{
    if a.len() > 0 {
        lemma_lex_irreflexive(a.drop_first());
    }
}

pub proof fn lemma_lex_asymmetric(a: Seq<char>, b: Seq<char>)
    ensures
        !(lex_lt(a, b) && lex_lt(b, a)),
    decreases a.len(),
{
    if a.len() > 0 && b.len() > 0 && a[0] == b[0] {
        lemma_lex_asymmetric(a.drop_first(), b.drop_first());
    }
}

pub proof fn lemma_lex_transitive(a: Seq<char>, b: Seq<char>, c: Seq<char>)
    requires
        lex_lt(a, b),
        lex_lt(b, c),
    ensures
        lex_lt(a, c),
    decreases a.len(),
{
    if a.len() > 0 && b.len() > 0 && c.len() > 0 && a[0] == b[0] && b[0] == c[0] {
        lemma_lex_transitive(a.drop_first(), b.drop_first(), c.drop_first());
    }
}

pub proof fn lemma_lex_total(a: Seq<char>, b: Seq<char>)
    ensures
        a == b || lex_lt(a, b) || lex_lt(b, a),
    decreases a.len(),
{
    if a.len() > 0 && b.len() > 0 && a[0] == b[0] {
        lemma_lex_total(a.drop_first(), b.drop_first());
        if a.drop_first() == b.drop_first() {
            assert(a =~= seq![a[0]] + a.drop_first());
            assert(b =~= seq![b[0]] + b.drop_first());
        }
    } else if a.len() == 0 && b.len() == 0 {
        assert(a =~= b);
    }
}

/// The order of two keys.
#[derive(Clone, Copy, Debug, PartialEq, Eq, Structural)]
pub enum KeyOrder {
    Less,
    Equal,
    Greater,
}

/// Compares two character sequences in the order of `String`.
pub fn compare_chars(a: &Vec<char>, b: &Vec<char>) -> (r: KeyOrder)
    ensures
        r == KeyOrder::Less <==> lex_lt(a@, b@),
        r == KeyOrder::Equal <==> a@ == b@,
        r == KeyOrder::Greater <==> lex_lt(b@, a@),
{
    let mut i: usize = 0;
    proof {
        assert(a@.skip(0) =~= a@);
        assert(b@.skip(0) =~= b@);
    }
    while i < a.len() && i < b.len() && a[i] == b[i]
        invariant
            i <= a.len(),
            i <= b.len(),
            a@.take(i as int) == b@.take(i as int),
            lex_lt(a@, b@) == lex_lt(a@.skip(i as int), b@.skip(i as int)),
            lex_lt(b@, a@) == lex_lt(b@.skip(i as int), a@.skip(i as int)),
        decreases a.len() - i,
    {
        proof {
            assert(a@.skip(i as int).drop_first() =~= a@.skip(i + 1));
            assert(b@.skip(i as int).drop_first() =~= b@.skip(i + 1));
            assert(a@.take(i + 1) =~= a@.take(i as int).push(a@[i as int]));
            assert(b@.take(i + 1) =~= b@.take(i as int).push(b@[i as int]));
        }
        i = i + 1;
    }
    proof {
        lemma_lex_asymmetric(a@, b@);
        lemma_lex_total(a@, b@);
        lemma_lex_irreflexive(a@);
    }
    if i == a.len() && i == b.len() {
        proof {
            assert(a@ =~= a@.take(i as int));
            assert(b@ =~= b@.take(i as int));
        }
        KeyOrder::Equal
    } else if i == a.len() {
        proof {
            assert(a@.skip(i as int).len() == 0);
        }
        KeyOrder::Less
    } else if i == b.len() {
        proof {
            assert(b@.skip(i as int).len() == 0);
            assert(a@ != b@);
        }
        KeyOrder::Greater
    } else if a[i] < b[i] {
        proof {
            assert(a@ != b@ || a@[i as int] == b@[i as int]);
        }
        KeyOrder::Less
    } else {
        proof {
            assert(a@[i as int] != b@[i as int]);
        }
        KeyOrder::Greater
    }
}

} // verus!
