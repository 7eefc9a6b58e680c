//! Character-level text helpers with exact specifications: line splitting,
//! whitespace tokens, separators, trimming and decimal number parsing.
//!
//! Text is handled as the `Vec<char>` of a `&str`; a piece of it is a pair of
//! character indices `(from, to)`, whose text is `v@.subrange(from, to)`.
use vstd::prelude::*;
use vstd::seq_lib::{to_multiset_build, to_multiset_insert};

verus! {

// ---------------------------------------------------------------------------
// Specifications
// ---------------------------------------------------------------------------

/// Unicode `White_Space`, the set `char::is_whitespace` tests.
pub open spec fn is_ws(c: char) -> bool {
    let u = c as u32;
    ||| 0x09 <= u <= 0x0D
    ||| u == 0x20
    ||| u == 0x85
    ||| u == 0xA0
    ||| u == 0x1680
    ||| 0x2000 <= u <= 0x200A
    ||| u == 0x2028
    ||| u == 0x2029
    ||| u == 0x202F
    ||| u == 0x205F
    ||| u == 0x3000
}

/// First index `j >= i` with `s[j] == c`, or `s.len()` when there is none.
pub open spec fn find_from(s: Seq<char>, i: int, c: char) -> int
    decreases s.len() - i,
{
    if i >= s.len() {
        s.len() as int
    } else if s[i] == c {
        i
    } else {
        find_from(s, i + 1, c)
    }
}

/// First index `j >= i` where the two-character separator `a b` starts, or
/// `s.len()` when there is none.
pub open spec fn find2_from(s: Seq<char>, i: int, a: char, b: char) -> int
    decreases s.len() - i,
{
    if i + 1 >= s.len() {
        s.len() as int
    } else if s[i] == a && s[i + 1] == b {
        i
    } else {
        find2_from(s, i + 1, a, b)
    }
}

/// The lines of `s` as `str::lines` gives them: split at `'\n'`, a `'\r'`
/// right before a `'\n'` dropped, no empty line after a final `'\n'`.
pub open spec fn lines_from(s: Seq<char>, i: int) -> Seq<Seq<char>>
    decreases s.len() - i,
{
    if i < 0 || i >= s.len() {
        Seq::empty()
    } else {
        proof {
            lemma_find_from_bounds(s, i, '\n');
        }
        let e = find_from(s, i, '\n');
        let line = if e < s.len() && e > i && s[e - 1] == '\r' {
            s.subrange(i, e - 1)
        } else {
            s.subrange(i, e)
        };
        if e >= s.len() {
            seq![line]
        } else {
            seq![line] + lines_from(s, e + 1)
        }
    }
}

pub open spec fn spec_lines(s: Seq<char>) -> Seq<Seq<char>> {
    lines_from(s, 0)
}

/// End of the whitespace-free run that starts at `i`.
pub open spec fn tok_end(s: Seq<char>, i: int) -> int
    decreases s.len() - i,
{
    if i >= s.len() {
        s.len() as int
    } else if is_ws(s[i]) {
        i
    } else {
        tok_end(s, i + 1)
    }
}

/// The whitespace-separated tokens of `s` from index `i` on, as
/// `str::split_whitespace` gives them.
pub open spec fn tokens_from(s: Seq<char>, i: int) -> Seq<Seq<char>>
    decreases s.len() - i,
{
    if i < 0 || i >= s.len() {
        Seq::empty()
    } else if is_ws(s[i]) {
        tokens_from(s, i + 1)
    } else {
        proof {
            lemma_tok_end_bounds(s, i + 1);
        }
        let e = tok_end(s, i + 1);
        seq![s.subrange(i, e)] + tokens_from(s, e)
    }
}

pub open spec fn spec_tokens(s: Seq<char>) -> Seq<Seq<char>> {
    tokens_from(s, 0)
}

/// Index of the first non-whitespace character at or after `i` (or `s.len()`).
pub open spec fn skip_ws(s: Seq<char>, i: int) -> int
    decreases s.len() - i,
{
    if i >= s.len() {
        s.len() as int
    } else if is_ws(s[i]) {
        skip_ws(s, i + 1)
    } else {
        i
    }
}

/// Length of `s` once trailing whitespace is removed.
pub open spec fn trim_end_len(s: Seq<char>) -> int
    decreases s.len(),
{
    if s.len() == 0 {
        0
    } else if is_ws(s.last()) {
        trim_end_len(s.drop_last())
    } else {
        s.len() as int
    }
}

/// `s` without trailing whitespace, as `str::trim_end` gives it.
pub open spec fn spec_trim_end(s: Seq<char>) -> Seq<char> {
    s.take(trim_end_len(s))
}

/// `s` without leading and trailing whitespace, as `str::trim` gives it.
pub open spec fn spec_trim(s: Seq<char>) -> Seq<char> {
    let t = spec_trim_end(s);
    t.skip(skip_ws(t, 0))
}

pub open spec fn is_prefix(p: Seq<char>, s: Seq<char>) -> bool {
    p.len() <= s.len() && s.take(p.len() as int) == p
}

pub open spec fn is_digit(c: char) -> bool {
    0x30 <= c as u32 <= 0x39
}

pub open spec fn all_digits(s: Seq<char>) -> bool {
    forall|k: int| 0 <= k < s.len() ==> is_digit(#[trigger] s[k])
}

/// Decimal value of a string of digits.
pub open spec fn digits_value(s: Seq<char>) -> int
    decreases s.len(),
{
    if s.len() == 0 {
        0
    } else {
        digits_value(s.drop_last()) * 10 + (s.last() as u32 - 0x30)
    }
}

/// The digits that an unsigned number's text holds: an optional leading `'+'`
/// is dropped.
pub open spec fn unsigned_digits(s: Seq<char>) -> Seq<char> {
    if s.len() > 0 && s[0] == '+' {
        s.skip(1)
    } else {
        s
    }
}

/// What `str::parse` gives for an unsigned integer type whose largest value is
/// `max`: `Some` exactly when the text is an optional `'+'` and at least one
/// decimal digit, and the value is at most `max`.
pub open spec fn spec_parse_uint(s: Seq<char>, max: int) -> Option<int> {
    let d = unsigned_digits(s);
    if d.len() > 0 && all_digits(d) && digits_value(d) <= max {
        Some(digits_value(d))
    } else {
        None
    }
}

// ---------------------------------------------------------------------------
// Lemmas
// ---------------------------------------------------------------------------

/// The search for `c` from `i` stops at a `c`, or at the end, past other
/// characters only.
pub proof fn lemma_find_from_bounds(s: Seq<char>, i: int, c: char)
    requires
        0 <= i <= s.len(),
    ensures
        i <= find_from(s, i, c) <= s.len(),
        find_from(s, i, c) < s.len() ==> s[find_from(s, i, c)] == c,
        forall|k: int| i <= k < find_from(s, i, c) ==> s[k] != c,
    decreases s.len() - i,
{
    if i < s.len() && s[i] != c {
        lemma_find_from_bounds(s, i + 1, c);
    }
}

/// A text that starts with `p` does not start with a `q` that differs from
/// `p` at a position within both.
pub proof fn lemma_prefixes_differ(p: Seq<char>, q: Seq<char>, s: Seq<char>, i: int)
    requires
        is_prefix(p, s),
        0 <= i < p.len(),
        i < q.len(),
        p[i] != q[i],
    ensures
        !is_prefix(q, s),
{
    assert(s.take(p.len() as int)[i] == s[i]);
    if is_prefix(q, s) {
        assert(s.take(q.len() as int)[i] == s[i]);
    }
}

/// The search for the pair `a b` from `i` stops at one, or at the end.
pub proof fn lemma_find2_from_bounds(s: Seq<char>, i: int, a: char, b: char)
    requires
        0 <= i <= s.len(),
    ensures
        i <= find2_from(s, i, a, b) <= s.len(),
        find2_from(s, i, a, b) < s.len() ==> find2_from(s, i, a, b) + 1 < s.len()
            && s[find2_from(s, i, a, b)] == a && s[find2_from(s, i, a, b) + 1] == b,
    decreases s.len() - i,
{
    if i + 1 < s.len() && !(s[i] == a && s[i + 1] == b) {
        lemma_find2_from_bounds(s, i + 1, a, b);
    }
}

/// A token from `i` ends at whitespace or at the end, and holds none.
pub proof fn lemma_tok_end_bounds(s: Seq<char>, i: int)
    requires
        0 <= i <= s.len(),
    ensures
        i <= tok_end(s, i) <= s.len(),
        forall|k: int| i <= k < tok_end(s, i) ==> !is_ws(#[trigger] s[k]),
        tok_end(s, i) < s.len() ==> is_ws(s[tok_end(s, i)]),
    decreases s.len() - i,
{
    if i < s.len() && !is_ws(s[i]) {
        lemma_tok_end_bounds(s, i + 1);
    }
}

/// Skipping whitespace from `i` stops at a character that is not, or at
/// the end.
pub proof fn lemma_skip_ws_bounds(s: Seq<char>, i: int)
    requires
        0 <= i <= s.len(),
    ensures
        i <= skip_ws(s, i) <= s.len(),
        forall|k: int| i <= k < skip_ws(s, i) ==> is_ws(#[trigger] s[k]),
        skip_ws(s, i) < s.len() ==> !is_ws(s[skip_ws(s, i)]),
    decreases s.len() - i,
{
    if i < s.len() && is_ws(s[i]) {
        lemma_skip_ws_bounds(s, i + 1);
    }
}

/// What trailing whitespace trimming keeps ends in a character that is not
/// whitespace; only whitespace is dropped.
pub proof fn lemma_trim_end_len_bounds(s: Seq<char>)
    ensures
        0 <= trim_end_len(s) <= s.len(),
        trim_end_len(s) > 0 ==> !is_ws(s[trim_end_len(s) - 1]),
        forall|k: int| trim_end_len(s) <= k < s.len() ==> is_ws(#[trigger] s[k]),
    decreases s.len(),
{
    if s.len() > 0 && is_ws(s.last()) {
        lemma_trim_end_len_bounds(s.drop_last());
        assert forall|k: int| trim_end_len(s) <= k < s.len() implies is_ws(#[trigger] s[k]) by {
            if k < s.len() - 1 {
                assert(s.drop_last()[k] == s[k]);
            }
        }
    }
}

/// A prefix of a string of digits has at most the whole string's value.
pub proof fn lemma_digits_value_prefix(s: Seq<char>, n: int)
    requires
        0 <= n <= s.len(),
        all_digits(s),
    ensures
        digits_value(s.take(n)) <= digits_value(s),
        digits_value(s) >= 0,
    decreases s.len(),
{
    if s.len() > 0 {
        let d = s.drop_last();
        assert(all_digits(d)) by {
            assert forall|k: int| 0 <= k < d.len() implies is_digit(#[trigger] d[k]) by {
                assert(d[k] == s[k]);
            }
        }
        assert(is_digit(s[s.len() - 1]));
        if n == s.len() {
            assert(s.take(n) =~= s);
            lemma_digits_value_prefix(d, 0);
        } else {
            assert(s.take(n) =~= d.take(n));
            lemma_digits_value_prefix(d, n);
        }
    }
}

// ---------------------------------------------------------------------------
// Executable helpers
// ---------------------------------------------------------------------------

/// The characters of `s`, in order.
pub fn chars_of(s: &str) -> (v: Vec<char>)
    ensures
        v@ == s@,
{
    let mut v: Vec<char> = Vec::new();
    for c in it: s.chars()
        invariant
            v@ == it.seq().take(it.index() as int),
    {
        v.push(c);
    }
    assert(v@ =~= s@);
    v
}

/// The `String` made of the characters `from..to` of `s`.
pub fn string_of(s: &str, from: usize, to: usize) -> (r: String)
    requires
        from <= to <= s@.len(),
    ensures
        r@ == s@.subrange(from as int, to as int),
{
    let sub = s.substring_char(from, to);
    String::from_str(sub)
}

/// Whether `c` is Unicode whitespace.
pub fn is_ws_char(c: char) -> (b: bool)
    ensures
        b == is_ws(c),
{
    let u: u32 = c as u32;
    (0x09 <= u && u <= 0x0D) || u == 0x20 || u == 0x85 || u == 0xA0 || u == 0x1680 || (0x2000
        <= u && u <= 0x200A) || u == 0x2028 || u == 0x2029 || u == 0x202F || u == 0x205F || u
        == 0x3000
}

/// First index at or after `from` (below `to`) where `v` holds `c`, or `to`.
pub fn find_char(v: &Vec<char>, from: usize, to: usize, c: char) -> (r: usize)
    requires
        from <= to <= v@.len(),
    ensures
        from <= r <= to,
        r == from + find_from(v@.subrange(from as int, to as int), 0, c),
{
    let ghost s = v@.subrange(from as int, to as int);
    let mut j = from;
    while j < to
        invariant
            from <= j <= to <= v@.len(),
            s == v@.subrange(from as int, to as int),
            find_from(s, 0, c) == find_from(s, j - from, c),
        decreases to - j,
    {
        assert(s[j - from] == v@[j as int]);
        if v[j] == c {
            return j;
        }
        j = j + 1;
    }
    j
}

/// First index at or after `from` (below `to`) where the separator `a b`
/// starts, or `to`.
pub fn find_char2(v: &Vec<char>, from: usize, to: usize, a: char, b: char) -> (r: usize)
    requires
        from <= to <= v@.len(),
    ensures
        from <= r <= to,
        r == from + find2_from(v@.subrange(from as int, to as int), 0, a, b),
{
    let ghost s = v@.subrange(from as int, to as int);
    let mut j = from;
    while j < to && to - j > 1
        invariant
            from <= j <= to <= v@.len(),
            s == v@.subrange(from as int, to as int),
            find2_from(s, 0, a, b) == find2_from(s, j - from, a, b),
        decreases to - j,
    {
        assert(s[j - from] == v@[j as int]);
        assert(s[j - from + 1] == v@[j + 1]);
        if v[j] == a && v[j + 1] == b {
            return j;
        }
        j = j + 1;
    }
    to
}

/// The lines of `v`, each as a character range.
pub fn line_ranges(v: &Vec<char>) -> (r: Vec<(usize, usize)>)
    ensures
        r@.len() == spec_lines(v@).len(),
        forall|k: int|
            0 <= k < r@.len() ==> (#[trigger] r@[k]).0 <= r@[k].1 <= v@.len() && v@.subrange(
                r@[k].0 as int,
                r@[k].1 as int,
            ) == spec_lines(v@)[k],
{
    let mut r: Vec<(usize, usize)> = Vec::new();
    let mut i: usize = 0;
    let n = v.len();
    while i < n
        invariant
            n == v@.len(),
            i <= n,
            spec_lines(v@) == r@.map_values(
                |p: (usize, usize)| v@.subrange(p.0 as int, p.1 as int),
            ) + lines_from(v@, i as int),
            forall|k: int| 0 <= k < r@.len() ==> (#[trigger] r@[k]).0 <= r@[k].1 <= v@.len(),
        decreases n - i,
    {
        let e = find_char(v, i, n, '\n');
        proof {
            let s = v@.subrange(i as int, n as int);
            lemma_find_from_bounds(s, 0, '\n');
            lemma_find_rel(v@, i as int, '\n');
        }
        let end = if e < n && e > i && v[e - 1] == '\r' {
            e - 1
        } else {
            e
        };
        let ghost old_r = r@;
        r.push((i, end));
        proof {
            assert(lines_from(v@, i as int) == seq![v@.subrange(i as int, end as int)] + (if e >= n {
                Seq::empty()
            } else {
                lines_from(v@, e + 1)
            }));
            assert(r@.map_values(|p: (usize, usize)| v@.subrange(p.0 as int, p.1 as int))
                =~= old_r.map_values(|p: (usize, usize)| v@.subrange(p.0 as int, p.1 as int))
                + seq![v@.subrange(i as int, end as int)]);
        }
        if e >= n {
            i = n;
        } else {
            i = e + 1;
        }
    }
    assert(lines_from(v@, i as int) =~= Seq::<Seq<char>>::empty());
    assert(spec_lines(v@) =~= r@.map_values(
        |p: (usize, usize)| v@.subrange(p.0 as int, p.1 as int),
    ));
    r
}

/// `find_from` on the suffix `i..` of `s` is `find_from` on `s` from `i`.
pub proof fn lemma_find_rel(s: Seq<char>, i: int, c: char)
    requires
        0 <= i <= s.len(),
    ensures
        i + find_from(s.subrange(i, s.len() as int), 0, c) == find_from(s, i, c),
{
    lemma_find_rel_at(s, i, 0, c);
}

proof fn lemma_find_rel_at(s: Seq<char>, i: int, j: int, c: char)
    requires
        0 <= i <= s.len(),
        0 <= j <= s.len() - i,
    ensures
        i + find_from(s.subrange(i, s.len() as int), j, c) == find_from(s, i + j, c),
    decreases s.len() - i - j,
{
    let t = s.subrange(i, s.len() as int);
    if j < t.len() {
        assert(t[j] == s[i + j]);
        if t[j] != c {
            lemma_find_rel_at(s, i, j + 1, c);
        }
    }
}


/// The whitespace-separated tokens of the characters `from..to` of `v`, each
/// as a character range of `v`.
pub fn token_ranges(v: &Vec<char>, from: usize, to: usize) -> (r: Vec<(usize, usize)>)
    requires
        from <= to <= v@.len(),
    ensures
        r@.len() == spec_tokens(v@.subrange(from as int, to as int)).len(),
        forall|k: int|
            0 <= k < r@.len() ==> from <= (#[trigger] r@[k]).0 <= r@[k].1 <= to && v@.subrange(
                r@[k].0 as int,
                r@[k].1 as int,
            ) == spec_tokens(v@.subrange(from as int, to as int))[k],
{
    let ghost s = v@.subrange(from as int, to as int);
    let mut r: Vec<(usize, usize)> = Vec::new();
    let mut i: usize = from;
    while i < to
        invariant
            from <= i <= to <= v@.len(),
            s == v@.subrange(from as int, to as int),
            spec_tokens(s) == r@.map_values(
                |p: (usize, usize)| v@.subrange(p.0 as int, p.1 as int),
            ) + tokens_from(s, i - from),
            forall|k: int| 0 <= k < r@.len() ==> from <= (#[trigger] r@[k]).0 <= r@[k].1 <= to,
        decreases to - i,
    {
        assert(s[i - from] == v@[i as int]);
        if is_ws_char(v[i]) {
            i = i + 1;
        } else {
            let mut e = i + 1;
            while e < to && !is_ws_char(v[e])
                invariant
                    from <= i < e <= to <= v@.len(),
                    s == v@.subrange(from as int, to as int),
                    tok_end(s, i + 1 - from) == tok_end(s, e - from),
                decreases to - e,
            {
                assert(s[e - from] == v@[e as int]);
                e = e + 1;
            }
            proof {
                if e < to {
                    assert(s[e - from] == v@[e as int]);
                }
                assert(v@.subrange(i as int, e as int) =~= s.subrange(i - from, e - from));
            }
            let ghost old_r = r@;
            r.push((i, e));
            proof {
                assert(r@.map_values(|p: (usize, usize)| v@.subrange(p.0 as int, p.1 as int))
                    =~= old_r.map_values(|p: (usize, usize)| v@.subrange(p.0 as int, p.1 as int))
                    + seq![v@.subrange(i as int, e as int)]);
            }
            i = e;
        }
    }
    assert(tokens_from(s, i - from) =~= Seq::<Seq<char>>::empty());
    assert(spec_tokens(s) =~= r@.map_values(
        |p: (usize, usize)| v@.subrange(p.0 as int, p.1 as int),
    ));
    r
}

/// End index of the characters `from..to` of `v` once trailing whitespace is
/// removed.
pub fn trim_end_range(v: &Vec<char>, from: usize, to: usize) -> (e: usize)
    requires
        from <= to <= v@.len(),
    ensures
        from <= e <= to,
        v@.subrange(from as int, e as int) == spec_trim_end(v@.subrange(from as int, to as int)),
{
    let ghost s = v@.subrange(from as int, to as int);
    let mut e = to;
    assert(s.take(to - from) =~= s);
    while e > from && is_ws_char(v[e - 1])
        invariant
            from <= e <= to <= v@.len(),
            s == v@.subrange(from as int, to as int),
            trim_end_len(s) == trim_end_len(s.take(e - from)),
        decreases e,
    {
        proof {
            let t = s.take(e - from);
            assert(t.last() == v@[e - 1]);
            assert(t.drop_last() =~= s.take(e - 1 - from));
        }
        e = e - 1;
    }
    proof {
        let t = s.take(e - from);
        if e > from {
            assert(t.last() == v@[e - 1]);
        } else {
            assert(t.len() == 0);
        }
        assert(v@.subrange(from as int, e as int) =~= s.take(trim_end_len(s)));
    }
    e
}

/// The characters `from..to` of `v` without leading and trailing whitespace,
/// as a character range.
pub fn trim_range(v: &Vec<char>, from: usize, to: usize) -> (r: (usize, usize))
    requires
        from <= to <= v@.len(),
    ensures
        from <= r.0 <= r.1 <= to,
        v@.subrange(r.0 as int, r.1 as int) == spec_trim(v@.subrange(from as int, to as int)),
{
    let e = trim_end_range(v, from, to);
    let ghost t = v@.subrange(from as int, e as int);
    let mut b = from;
    while b < e && is_ws_char(v[b])
        invariant
            from <= b <= e <= to <= v@.len(),
            t == v@.subrange(from as int, e as int),
            skip_ws(t, 0) == skip_ws(t, b - from),
        decreases e - b,
    {
        assert(t[b - from] == v@[b as int]);
        b = b + 1;
    }
    proof {
        if b < e {
            assert(t[b - from] == v@[b as int]);
        }
        assert(v@.subrange(b as int, e as int) =~= t.skip(skip_ws(t, 0)));
    }
    (b, e)
}

/// Whether the characters `from..to` of `v` start with `lit`.
pub fn starts_with_lit(v: &Vec<char>, from: usize, to: usize, lit: &str) -> (b: bool)
    requires
        from <= to <= v@.len(),
    ensures
        b == is_prefix(lit@, v@.subrange(from as int, to as int)),
{
    let ghost s = v@.subrange(from as int, to as int);
    let n = lit.unicode_len();
    if n > to - from {
        return false;
    }
    let mut i: usize = 0;
    while i < n
        invariant
            n == lit@.len(),
            n <= to - from,
            from <= to <= v@.len(),
            s == v@.subrange(from as int, to as int),
            i <= n,
            forall|k: int| 0 <= k < i ==> s[k] == lit@[k],
        decreases n - i,
    {
        let c = lit.get_char(i);
        if v[from + i] != c {
            assert(s.take(n as int)[i as int] != lit@[i as int]);
            return false;
        }
        i = i + 1;
    }
    assert(s.take(n as int) =~= lit@);
    true
}

/// Whether the characters `from..to` of `v` are exactly `lit`.
pub fn eq_lit(v: &Vec<char>, from: usize, to: usize, lit: &str) -> (b: bool)
    requires
        from <= to <= v@.len(),
    ensures
        b == (v@.subrange(from as int, to as int) == lit@),
{
    let n = lit.unicode_len();
    if n != to - from {
        return false;
    }
    let b = starts_with_lit(v, from, to, lit);
    proof {
        let s = v@.subrange(from as int, to as int);
        assert(s.take(n as int) =~= s);
    }
    b
}

/// The unsigned number whose text is the characters `from..to` of `v`, when
/// that text is one whose value is at most `max` (as `str::parse` reads it).
pub fn parse_uint(v: &Vec<char>, from: usize, to: usize, max: u64) -> (r: Option<u64>)
    requires
        from <= to <= v@.len(),
        max >= 9,
    ensures
        match r {
            Some(x) => spec_parse_uint(v@.subrange(from as int, to as int), max as int) == Some(
                x as int,
            ),
            None => spec_parse_uint(v@.subrange(from as int, to as int), max as int) is None,
        },
{
    let ghost s = v@.subrange(from as int, to as int);
    let mut start = from;
    if start < to && v[start] == '+' {
        start = start + 1;
    }
    let ghost d = unsigned_digits(s);
    assert(d =~= v@.subrange(start as int, to as int));
    if start == to {
        return None;
    }
    let mut acc: u64 = 0;
    let mut k = start;
    while k < to
        invariant
            from <= start <= k <= to <= v@.len(),
            max >= 9,
            d == v@.subrange(start as int, to as int),
            d == unsigned_digits(s),
            s == v@.subrange(from as int, to as int),
            acc <= max,
            acc == digits_value(d.take(k - start)),
            all_digits(d.take(k - start)),
        decreases to - k,
    {
        let c = v[k];
        assert(d[k - start] == c);
        let u: u32 = c as u32;
        if u < 0x30 || u > 0x39 {
            assert(!is_digit(d[k - start]));
            return None;
        }
        let dg: u64 = (u - 0x30) as u64;
        proof {
            let t = d.take(k + 1 - start);
            assert(t.drop_last() =~= d.take(k - start));
            assert(t.last() == c);
            assert(digits_value(t) == acc * 10 + dg);
        }
        if acc > (max - dg) / 10 {
            proof {
                assert(acc * 10 + dg > max) by (nonlinear_arith)
                    requires
                        acc > (max - dg) / 10,
                        dg <= 9,
                        max >= 9,
                ;
                if all_digits(d) {
                    lemma_digits_value_prefix(d, k + 1 - start);
                }
            }
            return None;
        }
        assert(acc * 10 + dg <= max) by (nonlinear_arith)
            requires
                acc <= (max - dg) / 10,
                dg <= 9,
                max >= 9,
        ;
        acc = acc * 10 + dg;
        proof {
            let t = d.take(k + 1 - start);
            assert forall|j: int| 0 <= j < t.len() implies is_digit(#[trigger] t[j]) by {
                if j < k - start {
                    assert(t[j] == d.take(k - start)[j]);
                }
            }
        }
        k = k + 1;
    }
    assert(d.take(k - start) =~= d);
    Some(acc)
}

// ---------------------------------------------------------------------------
// Lexicographic order of texts
// ---------------------------------------------------------------------------

/// `a` comes strictly before `b` in the order of `str`'s `Ord`: the first
/// differing character decides, and a proper prefix comes first.
pub open spec fn lex_lt(a: Seq<char>, b: Seq<char>) -> bool
    decreases a.len(),
{
    if a.len() == 0 {
        b.len() > 0
    } else if b.len() == 0 {
        false
    } else if a[0] != b[0] {
        (a[0] as int) < (b[0] as int)
    } else {
        lex_lt(a.skip(1), b.skip(1))
    }
}

pub open spec fn lex_le(a: Seq<char>, b: Seq<char>) -> bool {
    a == b || lex_lt(a, b)
}

/// The texts are in ascending order.
pub open spec fn lex_sorted(s: Seq<Seq<char>>) -> bool {
    forall|i: int, j: int| 0 <= i < j < s.len() ==> lex_le(#[trigger] s[i], #[trigger] s[j])
}

/// The texts are in strictly ascending order.
pub open spec fn lex_strictly_sorted(s: Seq<Seq<char>>) -> bool {
    forall|i: int, j: int| 0 <= i < j < s.len() ==> lex_lt(#[trigger] s[i], #[trigger] s[j])
}

/// An ascending arrangement of texts of which none repeats is strictly
/// ascending.
pub proof fn lemma_sorted_distinct_strict(s: Seq<Seq<char>>, t: Seq<Seq<char>>)
    requires
        lex_sorted(s),
        s.to_multiset() == t.to_multiset(),
        t.no_duplicates(),
    ensures
        s.no_duplicates(),
        lex_strictly_sorted(s),
{
    t.lemma_multiset_has_no_duplicates();
    s.lemma_multiset_has_no_duplicates_conv();
    assert forall|i: int, j: int| 0 <= i < j < s.len() implies lex_lt(#[trigger] s[i], #[trigger] s[j]) by {
        assert(lex_le(s[i], s[j]));
        assert(s[i] != s[j]);
    }
}

/// No text comes before itself.
pub proof fn lemma_lex_lt_irreflexive(a: Seq<char>)
    ensures
        !lex_lt(a, a),
    decreases a.len(),
{
    if a.len() > 0 {
        lemma_lex_lt_irreflexive(a.skip(1));
    }
}

/// Of two texts, at most one comes before the other.
pub proof fn lemma_lex_lt_asymmetric(a: Seq<char>, b: Seq<char>)
    ensures
        !(lex_lt(a, b) && lex_lt(b, a)),
    decreases a.len(),
{
    if a.len() > 0 && b.len() > 0 && a[0] == b[0] {
        lemma_lex_lt_asymmetric(a.skip(1), b.skip(1));
    }
}

/// The order of texts is transitive.
pub proof fn lemma_lex_lt_transitive(a: Seq<char>, b: Seq<char>, c: Seq<char>)
    requires
        lex_lt(a, b),
        lex_lt(b, c),
    ensures
        lex_lt(a, c),
    decreases a.len(),
{
    if a.len() > 0 && b.len() > 0 && c.len() > 0 && a[0] == b[0] && b[0] == c[0] {
        lemma_lex_lt_transitive(a.skip(1), b.skip(1), c.skip(1));
    }
}

/// Of two different texts, one comes before the other.
pub proof fn lemma_lex_lt_total(a: Seq<char>, b: Seq<char>)
    ensures
        a == b || lex_lt(a, b) || lex_lt(b, a),
    decreases a.len(),
{
    if a.len() > 0 && b.len() > 0 {
        if a[0] == b[0] {
            lemma_lex_lt_total(a.skip(1), b.skip(1));
            if a.skip(1) == b.skip(1) {
                assert(a =~= seq![a[0]] + a.skip(1));
                assert(b =~= seq![b[0]] + b.skip(1));
            }
        } else {
            assert((a[0] as int) != (b[0] as int));
        }
    } else if a.len() == 0 && b.len() == 0 {
        assert(a =~= b);
    }
}

/// Whether `a` comes strictly before `b`, as `<` on `str` tells.
pub fn str_lt(a: &str, b: &str) -> (r: bool)
    ensures
        r == lex_lt(a@, b@),
{
    let na = a.unicode_len();
    let nb = b.unicode_len();
    let mut i: usize = 0;
    assert(a@.skip(0) =~= a@);
    assert(b@.skip(0) =~= b@);
    while i < na && i < nb
        invariant
            na == a@.len(),
            nb == b@.len(),
            i <= na,
            i <= nb,
            lex_lt(a@, b@) == lex_lt(a@.skip(i as int), b@.skip(i as int)),
        decreases na - i,
    {
        let ca = a.get_char(i);
        let cb = b.get_char(i);
        if ca != cb {
            assert(a@.skip(i as int)[0] == ca);
            assert(b@.skip(i as int)[0] == cb);
            return (ca as u32) < (cb as u32);
        }
        assert(a@.skip(i as int).skip(1) =~= a@.skip(i + 1));
        assert(b@.skip(i as int).skip(1) =~= b@.skip(i + 1));
        i = i + 1;
    }
    i == na && i < nb
}

/// The texts of `v` in ascending order.
pub fn sort_strings(v: Vec<String>) -> (r: Vec<String>)
    ensures
        r@.map_values(|s: String| s@).to_multiset() == v@.map_values(|s: String| s@).to_multiset(),
        lex_sorted(r@.map_values(|s: String| s@)),
{
    let ghost vs = v@.map_values(|s: String| s@);
    let mut r: Vec<String> = Vec::new();
    let mut k: usize = 0;
    assert(vs.take(0) =~= Seq::<Seq<char>>::empty());
    assert(r@.map_values(|s: String| s@) =~= Seq::<Seq<char>>::empty());
    while k < v.len()
        invariant
            k <= v@.len(),
            vs == v@.map_values(|s: String| s@),
            r@.map_values(|s: String| s@).to_multiset() == vs.take(k as int).to_multiset(),
            lex_sorted(r@.map_values(|s: String| s@)),
        decreases v@.len() - k,
    {
        let x = v[k].clone();
        let ghost rs = r@.map_values(|s: String| s@);
        let mut p: usize = 0;
        while p < r.len() && str_lt(r[p].as_str(), x.as_str())
            invariant
                p <= r@.len(),
                rs == r@.map_values(|s: String| s@),
                forall|q: int| 0 <= q < p ==> lex_lt(#[trigger] rs[q], x@),
            decreases r@.len() - p,
        {
            assert(rs[p as int] == r@[p as int]@);
            p = p + 1;
        }
        proof {
            if p < r@.len() {
                assert(rs[p as int] == r@[p as int]@);
                assert(!lex_lt(rs[p as int], x@));
            }
        }
        let ghost before = r@;
        r.insert(p, x);
        let ghost ns = r@.map_values(|s: String| s@);
        proof {
            assert(r@ == before.insert(p as int, x));
            assert(ns =~= rs.insert(p as int, x@));
            to_multiset_insert(rs, p as int, x@);
            assert(vs.take(k + 1) =~= vs.take(k as int).push(vs[k as int]));
            to_multiset_build(vs.take(k as int), vs[k as int]);
            assert(vs[k as int] == x@);
            assert forall|i: int, j: int| 0 <= i < j < ns.len() implies lex_le(
                #[trigger] ns[i],
                #[trigger] ns[j],
            ) by {
                if j < p {
                    assert(ns[i] == rs[i] && ns[j] == rs[j]);
                } else if j == p {
                    assert(ns[i] == rs[i]);
                } else if i == p {
                    assert(ns[j] == rs[j - 1]);
                    assert(lex_le(rs[p as int], rs[j - 1]));
                    lemma_lex_lt_total(rs[p as int], x@);
                    if lex_lt(rs[j - 1], x@) {
                        if rs[p as int] != rs[j - 1] {
                            lemma_lex_lt_transitive(rs[p as int], rs[j - 1], x@);
                        }
                    }
                    lemma_lex_lt_total(rs[j - 1], x@);
                } else if i < p {
                    assert(ns[i] == rs[i] && ns[j] == rs[j - 1]);
                } else {
                    assert(ns[i] == rs[i - 1] && ns[j] == rs[j - 1]);
                }
            }
        }
        k = k + 1;
    }
    assert(vs.take(k as int) =~= vs);
    r
}


// ---------------------------------------------------------------------------
// Splitting at a separator
// ---------------------------------------------------------------------------

/// The pieces of `s` from `i` on, split at each `c`, as `str::split` gives
/// them: empty pieces kept, one piece after a final separator.
pub open spec fn split_from(s: Seq<char>, i: int, c: char) -> Seq<Seq<char>>
    decreases s.len() - i,
{
    if i < 0 || i > s.len() {
        Seq::empty()
    } else {
        proof {
            lemma_find_from_bounds(s, i, c);
        }
        let e = find_from(s, i, c);
        if e >= s.len() {
            seq![s.subrange(i, s.len() as int)]
        } else {
            seq![s.subrange(i, e)] + split_from(s, e + 1, c)
        }
    }
}

pub open spec fn spec_split(s: Seq<char>, c: char) -> Seq<Seq<char>> {
    split_from(s, 0, c)
}

/// The pieces of `v` split at each `c`, each as a character range.
pub fn split_ranges(v: &Vec<char>, c: char) -> (r: Vec<(usize, usize)>)
    ensures
        r@.len() == spec_split(v@, c).len(),
        forall|k: int|
            0 <= k < r@.len() ==> (#[trigger] r@[k]).0 <= r@[k].1 <= v@.len() && v@.subrange(
                r@[k].0 as int,
                r@[k].1 as int,
            ) == spec_split(v@, c)[k],
{
    let mut r: Vec<(usize, usize)> = Vec::new();
    let mut i: usize = 0;
    let n = v.len();
    loop
        invariant_except_break
            n == v@.len(),
            i <= n,
            spec_split(v@, c) == r@.map_values(
                |p: (usize, usize)| v@.subrange(p.0 as int, p.1 as int),
            ) + split_from(v@, i as int, c),
            forall|k: int| 0 <= k < r@.len() ==> (#[trigger] r@[k]).0 <= r@[k].1 <= v@.len(),
        ensures
            spec_split(v@, c) == r@.map_values(
                |p: (usize, usize)| v@.subrange(p.0 as int, p.1 as int),
            ),
            forall|k: int| 0 <= k < r@.len() ==> (#[trigger] r@[k]).0 <= r@[k].1 <= v@.len(),
        decreases n - i,
    {
        let e = find_char(v, i, n, c);
        proof {
            let s = v@.subrange(i as int, n as int);
            lemma_find_from_bounds(s, 0, c);
            lemma_find_rel(v@, i as int, c);
        }
        let ghost old_r = r@;
        r.push((i, e));
        proof {
            assert(r@.map_values(|p: (usize, usize)| v@.subrange(p.0 as int, p.1 as int))
                =~= old_r.map_values(|p: (usize, usize)| v@.subrange(p.0 as int, p.1 as int))
                + seq![v@.subrange(i as int, e as int)]);
        }
        if e >= n {
            proof {
                assert(split_from(v@, i as int, c) == seq![v@.subrange(i as int, n as int)]);
                assert(spec_split(v@, c) =~= r@.map_values(
                    |p: (usize, usize)| v@.subrange(p.0 as int, p.1 as int),
                ));
            }
            break;
        }
        proof {
            assert(split_from(v@, i as int, c) == seq![v@.subrange(i as int, e as int)]
                + split_from(v@, e + 1, c));
            assert(spec_split(v@, c) =~= r@.map_values(
                |p: (usize, usize)| v@.subrange(p.0 as int, p.1 as int),
            ) + split_from(v@, e + 1, c));
        }
        i = e + 1;
    }
    r
}

} // verus!
