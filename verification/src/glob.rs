//! Path patterns for per-file ignores: `*` stands for any run of characters
//! other than `/`, `**/` for zero or more leading path segments, a pattern
//! that is exactly `**` for any path, and `?` for one character other than
//! `/`. Every other character stands for itself; `\` counts as `/` in both
//! pattern and path. Paths are read as sequences of characters.

use vstd::prelude::*;
use crate::text::{chars_of};

verus! {

broadcast use vstd::string::group_string_axioms;

/// Whether `p` begins with `**/`.
pub open spec fn starts_double_star_slash(p: Seq<char>) -> bool {
    p.len() >= 3 && p[0] == '*' && p[1] == '*' && p[2] == '/'
}

/// Whether `p` is exactly `**`.
pub open spec fn is_double_star(p: Seq<char>) -> bool {
    p.len() == 2 && p[0] == '*' && p[1] == '*'
}

/// Whether the pattern `p` matches the whole of the path `s` (no `\`
/// handling: both are taken as they are).
pub open spec fn matches_pattern(p: Seq<char>, s: Seq<char>) -> bool
    decreases p.len(), s.len() + 2,
{
    if p.len() == 0 {
        s.len() == 0
    } else if starts_double_star_slash(p) {
        segments_scan(p.skip(3), s, 0)
    } else if is_double_star(p) {
        true
    } else if p[0] == '*' {
        star_scan(p.drop_first(), s, 0)
    } else if s.len() > 0 && (if p[0] == '?' { s[0] != '/' } else { p[0] == s[0] }) {
        matches_pattern(p.drop_first(), s.drop_first())
    } else {
        false
    }
}

/// `**/` followed by `rest`: whether `rest` matches the path from some
/// position `j` on, at or after the given one, where `j` is the start or
/// just after a `/`.
pub open spec fn segments_scan(rest: Seq<char>, s: Seq<char>, j: int) -> bool
    decreases rest.len() + 1, s.len() + 1 - j,
{
    if j < 0 || j > s.len() {
        false
    } else if j == 0 || s[j - 1] == '/' {
        if matches_pattern(rest, s.skip(j)) {
            true
        } else {
            segments_scan(rest, s, j + 1)
        }
    } else {
        segments_scan(rest, s, j + 1)
    }
}

/// `*` followed by `rest`: whether `rest` matches the path from some
/// position `k` on, at or after the given one, with no `/` between the
/// given position and `k`.
pub open spec fn star_scan(rest: Seq<char>, s: Seq<char>, k: int) -> bool
    decreases rest.len() + 1, s.len() + 1 - k,
{
    if k < 0 || k > s.len() {
        false
    } else if matches_pattern(rest, s.skip(k)) {
        true
    } else if k == s.len() || s[k] == '/' {
        false
    } else {
        star_scan(rest, s, k + 1)
    }
}

/// `\` read as `/`.
pub open spec fn normalize(s: Seq<char>) -> Seq<char> {
    s.map_values(|c: char| if c == '\\' { '/' } else { c })
}

/// Whether `pattern` matches the whole of `path` once `\` is read as `/`
/// in both.
pub open spec fn glob_match(pattern: Seq<char>, path: Seq<char>) -> bool {
    matches_pattern(normalize(pattern), normalize(path))
}

/// `s` with every `\` replaced by `/`.
pub fn normalized(s: &[char]) -> (r: Vec<char>)
    ensures
        r@ == normalize(s@),
{
    let mut out: Vec<char> = Vec::new();
    let mut i: usize = 0;
    while i < s.len()
        invariant
            i <= s@.len(),
            out@ == normalize(s@.take(i as int)),
        decreases s.len() - i,
    {
        let c = s[i];
        if c == '\\' {
            out.push('/');
        } else {
            out.push(c);
        }
        assert(normalize(s@.take(i + 1)) =~= normalize(s@.take(i as int)).push(out@.last()));
        i = i + 1;
    }
    assert(s@.take(s@.len() as int) =~= s@);
    out
}

/// Whether `pattern` matches the whole of `path`, with `\` read as `/` in
/// both.
pub fn glob_matches(pattern: &str, path: &str) -> (r: bool)
    ensures
        r == glob_match(pattern@, path@),
{
    let p = chars_of(pattern);
    let s = chars_of(path);
    let p = normalized(p.as_slice());
    let s = normalized(s.as_slice());
    glob_match_recursive(p.as_slice(), s.as_slice())
}

/// Whether the pattern `pattern` matches the whole of `path` (no `\`
/// handling: both are taken as they are).
pub fn glob_match_recursive(pattern: &[char], path: &[char]) -> (r: bool)
    ensures
        r == matches_pattern(pattern@, path@),
    decreases pattern@.len(),
{
    let n = pattern.len();
    let len = path.len();
    if n == 0 {
        return len == 0;
    }
    if n >= 3 && pattern[0] == '*' && pattern[1] == '*' && pattern[2] == '/' {
        let rest = &pattern[3..n];
        assert(rest@ == pattern@.skip(3));
        let mut j: usize = 0;
        loop
            invariant
                0 <= j <= len == path@.len(),
                rest@.len() < pattern@.len(),
                matches_pattern(pattern@, path@) == segments_scan(rest@, path@, j as int),
            decreases len + 1 - j,
        {
            if j == 0 || path[j - 1] == '/' {
                let tail = &path[j..len];
                assert(tail@ == path@.skip(j as int));
                if glob_match_recursive(rest, tail) {
                    return true;
                }
            }
            if j == len {
                assert(!segments_scan(rest@, path@, len + 1));
                return false;
            }
            j = j + 1;
        }
    }
    if n == 2 && pattern[0] == '*' && pattern[1] == '*' {
        return true;
    }
    if pattern[0] == '*' {
        let rest = &pattern[1..n];
        assert(rest@ == pattern@.drop_first());
        let mut k: usize = 0;
        loop
            invariant
                0 <= k <= len == path@.len(),
                rest@.len() < pattern@.len(),
                matches_pattern(pattern@, path@) == star_scan(rest@, path@, k as int),
            decreases len - k,
        {
            let tail = &path[k..len];
            assert(tail@ == path@.skip(k as int));
            if glob_match_recursive(rest, tail) {
                return true;
            }
            if k == len || path[k] == '/' {
                return false;
            }
            k = k + 1;
        }
    }
    let step = if pattern[0] == '?' {
        len > 0 && path[0] != '/'
    } else {
        len > 0 && pattern[0] == path[0]
    };
    if step {
        let rest = &pattern[1..n];
        let tail = &path[1..len];
        assert(rest@ == pattern@.drop_first());
        assert(tail@ == path@.drop_first());
        return glob_match_recursive(rest, tail);
    }
    false
}

/// Whether `p` holds neither `*` nor `?`: every character stands for itself.
pub open spec fn is_literal(p: Seq<char>) -> bool {
    forall|i: int| 0 <= i < p.len() ==> p[i] != '*' && p[i] != '?'
}

/// Whether no two `*` stand next to each other in `p`.
pub open spec fn no_double_star(p: Seq<char>) -> bool {
    forall|i: int| 0 <= i < p.len() - 1 ==> !(#[trigger] p[i] == '*' && p[i + 1] == '*')
}

/// A literal prefix is matched character by character: after a common
/// literal prefix `q`, matching goes on with what follows it.
pub proof fn lemma_literal_prefix(q: Seq<char>, r: Seq<char>, t: Seq<char>)
    requires
        is_literal(q),
    ensures
        matches_pattern(q + r, t) == (t.len() >= q.len() && t.take(q.len() as int) == q
            && matches_pattern(r, t.skip(q.len() as int))),
    decreases q.len(),
{
    if q.len() == 0 {
        assert(q + r =~= r);
        assert(t.take(0) =~= q);
        assert(t.skip(0) =~= t);
    } else {
        let p = q + r;
        assert(p[0] == q[0]);
        assert(p.drop_first() =~= q.drop_first() + r);
        if t.len() == 0 {
        } else if t[0] != q[0] {
            if t.len() >= q.len() {
                assert(t.take(q.len() as int)[0] == t[0]);
            }
        } else {
            let q1 = q.drop_first();
            let t1 = t.drop_first();
            lemma_literal_prefix(q1, r, t1);
            if t1.len() >= q1.len() && t1.take(q1.len() as int) == q1 {
                assert(t.take(q.len() as int) =~= q) by {
                    assert forall|i: int| 0 < i < q.len() implies t.take(q.len() as int)[i]
                        == q[i] by {
                        assert(t1.take(q1.len() as int)[i - 1] == q1[i - 1]);
                    }
                }
                assert(t1.skip(q1.len() as int) =~= t.skip(q.len() as int));
            } else if t.len() >= q.len() && t.take(q.len() as int) == q {
                assert(t1.take(q1.len() as int) =~= q1) by {
                    assert forall|i: int| 0 <= i < q1.len() implies t1.take(q1.len() as int)[i]
                        == q1[i] by {
                        assert(t.take(q.len() as int)[i + 1] == q[i + 1]);
                    }
                }
            }
        }
    }
}

/// A pattern without `*` and `?` matches exactly the path equal to it.
pub proof fn lemma_literal_exact(p: Seq<char>, s: Seq<char>)
    requires
        is_literal(p),
    ensures
        matches_pattern(p, s) == (p == s),
{
    lemma_literal_prefix(p, Seq::empty(), s);
    assert(p + Seq::<char>::empty() =~= p);
    if s.len() >= p.len() && s.take(p.len() as int) == p {
        if s.len() == p.len() {
            assert(s =~= s.take(p.len() as int));
        } else {
            assert(s != p);
        }
    } else {
        if s == p {
            assert(s.take(p.len() as int) =~= p);
        }
    }
}

proof fn lemma_normalize_literal(p: Seq<char>)
    requires
        is_literal(p),
    ensures
        is_literal(normalize(p)),
        normalize(p).len() == p.len(),
{
}

/// Law: a per-file-ignore pattern without `*` and `?` matches a path
/// exactly when the two are equal once `\` is read as `/`.
pub proof fn law_literal_pattern(pattern: Seq<char>, path: Seq<char>)
    requires
        is_literal(pattern),
    ensures
        glob_match(pattern, path) == (normalize(pattern) == normalize(path)),
{
    lemma_normalize_literal(pattern);
    lemma_literal_exact(normalize(pattern), normalize(path));
}

/// Law: the pattern `**` matches every path.
pub proof fn law_double_star_matches_all(path: Seq<char>)
    ensures
        glob_match(seq!['*', '*'], path),
{
    assert(normalize(seq!['*', '*']) =~= seq!['*', '*']);
}

/// Law: `dir/**`, for a `dir` without `*` and `?`, matches every path
/// under `dir/`.
pub proof fn law_directory_pattern(dir: Seq<char>, below: Seq<char>)
    requires
        is_literal(dir),
    ensures
        glob_match(dir + seq!['/', '*', '*'], dir + seq!['/'] + below),
{
    let q = normalize(dir) + seq!['/'];
    let p = dir + seq!['/', '*', '*'];
    let s = dir + seq!['/'] + below;
    assert(normalize(p) =~= q + seq!['*', '*']);
    assert(normalize(s) =~= q + normalize(below));
    assert(is_literal(q));
    lemma_literal_prefix(q, seq!['*', '*'], normalize(s));
    assert(normalize(s).take(q.len() as int) =~= q);
    assert(normalize(s).skip(q.len() as int) =~= normalize(below));
}

/// Reading `\` as `/` twice is reading it once.
pub proof fn lemma_normalize_idempotent(s: Seq<char>)
    ensures
        normalize(normalize(s)) == normalize(s),
{
    assert(normalize(normalize(s)) =~= normalize(s));
}

/// Law: `\` and `/` are interchangeable as separators: matching gives the
/// same answer once every `\` of pattern and path is replaced by `/`.
pub proof fn law_separators_interchangeable(pattern: Seq<char>, path: Seq<char>)
    ensures
        glob_match(pattern, path) == glob_match(normalize(pattern), normalize(path)),
{
    lemma_normalize_idempotent(pattern);
    lemma_normalize_idempotent(path);
}

proof fn lemma_star_reach(rest: Seq<char>, s: Seq<char>, k: int, k0: int)
    requires
        0 <= k <= k0 <= s.len(),
        forall|i: int| k <= i < k0 ==> s[i] != '/',
        matches_pattern(rest, s.skip(k0)),
    ensures
        star_scan(rest, s, k),
    decreases k0 - k,
{
    if k < k0 {
        lemma_star_reach(rest, s, k + 1, k0);
    }
}

/// Law: `*` followed by `rest` matches a run of characters other than `/`
/// followed by a path that `rest` matches, whatever those characters are.
pub proof fn law_star_within_segment(rest: Seq<char>, stem: Seq<char>, tail: Seq<char>)
    requires
        !stem.contains('/'),
        !stem.contains('\\'),
        rest.len() == 0 || rest[0] != '*',
        glob_match(rest, tail),
    ensures
        glob_match(seq!['*'] + rest, stem + tail),
{
    let p = normalize(seq!['*'] + rest);
    let s = normalize(stem + tail);
    assert(p =~= seq!['*'] + normalize(rest));
    assert(p.drop_first() =~= normalize(rest));
    assert(s.skip(stem.len() as int) =~= normalize(tail));
    assert forall|i: int| 0 <= i < stem.len() implies s[i] != '/' by {
        assert(stem.contains(stem[i]));
    }
    lemma_star_reach(normalize(rest), s, 0, stem.len() as int);
}

proof fn lemma_no_slash_no_match(p: Seq<char>, s: Seq<char>)
    requires
        !p.contains('/'),
        no_double_star(p),
        s.contains('/'),
    ensures
        !matches_pattern(p, s),
    decreases p.len(), s.len() + 2,
{
    if p.len() == 0 {
    } else if starts_double_star_slash(p) {
        assert(p.contains(p[2]));
    } else if is_double_star(p) {
        assert(!(p[0] == '*' && p[1] == '*'));
    } else if p[0] == '*' {
        assert(s.skip(0) =~= s);
        lemma_no_slash_star_scan(p.drop_first(), s, 0);
    } else {
        let q = p.drop_first();
        assert forall|c: char| q.contains(c) implies p.contains(c) by {
            let i = choose|i: int| 0 <= i < q.len() && q[i] == c;
            assert(p[i + 1] == c);
        }
        assert(no_double_star(q)) by {
            assert forall|i: int| 0 <= i < q.len() - 1 implies !(#[trigger] q[i] == '*' && q[i + 1]
                == '*') by {
                assert(q[i] == p[i + 1] && q[i + 1] == p[i + 2]);
            }
        }
        if s.len() > 0 && s[0] != '/' && (p[0] == '?' || p[0] == s[0]) {
            let j = choose|j: int| 0 <= j < s.len() && s[j] == '/';
            assert(s.drop_first()[j - 1] == '/');
            lemma_no_slash_no_match(q, s.drop_first());
        } else if s.len() > 0 && p[0] == s[0] {
            assert(p.contains(p[0]));
        }
    }
}

proof fn lemma_no_slash_star_scan(rest: Seq<char>, s: Seq<char>, k: int)
    requires
        !rest.contains('/'),
        no_double_star(rest),
        0 <= k <= s.len(),
        s.skip(k).contains('/'),
    ensures
        !star_scan(rest, s, k),
    decreases rest.len() + 1, s.len() + 1 - k,
{
    lemma_no_slash_no_match(rest, s.skip(k));
    let j = choose|j: int| 0 <= j < s.skip(k).len() && s.skip(k)[j] == '/';
    if k < s.len() && s[k] != '/' {
        assert(j != 0);
        assert(s.skip(k + 1)[j - 1] == '/');
        lemma_no_slash_star_scan(rest, s, k + 1);
    }
}

/// Law: a pattern with no `/` (nor `\`) and no `**` never matches a path
/// that has more than one segment: `*` does not reach across `/`.
pub proof fn law_star_stays_in_segment(pattern: Seq<char>, path: Seq<char>, i: int)
    requires
        !pattern.contains('/'),
        !pattern.contains('\\'),
        no_double_star(pattern),
        0 <= i < path.len(),
        path[i] == '/' || path[i] == '\\',
    ensures
        !glob_match(pattern, path),
{
    let p = normalize(pattern);
    assert(p =~= pattern) by {
        assert forall|j: int| 0 <= j < pattern.len() implies p[j] == pattern[j] by {
            assert(pattern.contains(pattern[j]));
        }
    }
    assert(normalize(path)[i] == '/');
    lemma_no_slash_no_match(pattern, normalize(path));
}

proof fn lemma_segments_reach(rest: Seq<char>, s: Seq<char>, j: int, j0: int)
    requires
        0 <= j <= j0 <= s.len(),
        j0 == 0 || s[j0 - 1] == '/',
        matches_pattern(rest, s.skip(j0)),
    ensures
        segments_scan(rest, s, j),
    decreases j0 - j,
{
    if j < j0 {
        lemma_segments_reach(rest, s, j + 1, j0);
    }
}

/// Law: `**/` followed by `rest` matches every path that `rest` matches,
/// and every path made of leading segments followed by a path that `rest`
/// matches.
pub proof fn law_leading_segments(rest: Seq<char>, lead: Seq<char>, tail: Seq<char>)
    requires
        matches_pattern(rest, tail),
    ensures
        matches_pattern(seq!['*', '*', '/'] + rest, tail),
        matches_pattern(seq!['*', '*', '/'] + rest, lead + seq!['/'] + tail),
{
    let p = seq!['*', '*', '/'] + rest;
    assert(p[0] == '*' && p[1] == '*' && p[2] == '/');
    assert(starts_double_star_slash(p));
    assert(p.skip(3) =~= rest);
    assert(tail.skip(0) =~= tail);
    lemma_segments_reach(rest, tail, 0, 0);
    let s = lead + seq!['/'] + tail;
    let j0: int = lead.len() as int + 1;
    assert(s[j0 - 1] == '/');
    assert(s.skip(j0) =~= tail);
    lemma_segments_reach(rest, s, 0, j0);
}

} // verus!
