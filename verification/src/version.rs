//! The minimum Python version of a `requires-python` specifier such as
//! `>=3.10`, `>=3.13,<4` or `==3.12`.

use vstd::prelude::*;
use crate::text::{
    chars_of,
    lemma_split_by_nonempty,
    one_of,
    split_any,
    split_by,
    starts_with,
    suffix_from,
    trim,
    trimmed,
    views,
};

verus! {

broadcast use vstd::string::group_string_axioms;

/// Whether `c` is an ASCII decimal digit.
pub open spec fn is_digit(c: char) -> bool {
    '0' <= c <= '9'
}

/// The number that the decimal digits `s` spell.
pub open spec fn digits_value(s: Seq<char>) -> nat
    decreases s.len(),
{
    if s.len() == 0 {
        0
    } else {
        digits_value(s.drop_last()) * 10 + (s.last() as u32 - '0' as u32) as nat
    }
}

/// Whether every character of `s` is a decimal digit.
pub open spec fn all_digits(s: Seq<char>) -> bool {
    forall|i: int| 0 <= i < s.len() ==> is_digit(#[trigger] s[i])
}

/// What `u32`'s `FromStr` gives: an optional `+` followed by one or more
/// decimal digits whose value fits in a `u32`; anything else is refused.
pub open spec fn parse_u32_spec(s: Seq<char>) -> Option<u32> {
    let d = if s.len() > 0 && s[0] == '+' {
        s.drop_first()
    } else {
        s
    };
    if d.len() > 0 && all_digits(d) && digits_value(d) <= u32::MAX {
        Some(digits_value(d) as u32)
    } else {
        None
    }
}

proof fn lemma_digits_value_prefix(s: Seq<char>, i: int)
    requires
        0 <= i <= s.len(),
        all_digits(s),
    ensures
        digits_value(s.take(i)) <= digits_value(s),
    decreases s.len() - i,
{
    if i < s.len() {
        lemma_digits_value_prefix(s, i + 1);
        assert(s.take(i + 1).drop_last() =~= s.take(i));
        assert(is_digit(s[i]));
    } else {
        assert(s.take(i) =~= s);
    }
}

/// The `u32` that `s` spells, if it is one, as `str::parse::<u32>` reads it.
pub fn parse_u32(s: &[char]) -> (r: Option<u32>)
    ensures
        r == parse_u32_spec(s@),
{
    let start: usize = if s.len() > 0 && s[0] == '+' {
        1
    } else {
        0
    };
    let ghost d = if s@.len() > 0 && s@[0] == '+' {
        s@.drop_first()
    } else {
        s@
    };
    assert(d =~= s@.skip(start as int));
    if start == s.len() {
        return None;
    }
    let mut i: usize = start;
    while i < s.len()
        invariant
            start <= i <= s@.len(),
            d == s@.skip(start as int),
            d == (if s@.len() > 0 && s@[0] == '+' { s@.drop_first() } else { s@ }),
            forall|j: int| start <= j < i ==> is_digit(#[trigger] s@[j]),
        decreases s.len() - i,
    {
        if !('0' <= s[i] && s[i] <= '9') {
            assert(!is_digit(d[i - start]));
            assert(!all_digits(d));
            return None;
        }
        i = i + 1;
    }
    assert(all_digits(d)) by {
        assert forall|j: int| 0 <= j < d.len() implies is_digit(#[trigger] d[j]) by {
            assert(d[j] == s@[j + start]);
        }
    }
    let mut value: u64 = 0;
    let mut k: usize = start;
    while k < s.len()
        invariant
            start <= k <= s@.len(),
            d == s@.skip(start as int),
            d == (if s@.len() > 0 && s@[0] == '+' { s@.drop_first() } else { s@ }),
            all_digits(d),
            value == digits_value(d.take(k - start)),
            value <= u32::MAX,
        decreases s.len() - k,
    {
        assert(d.take(k + 1 - start).drop_last() =~= d.take(k - start));
        assert(d.take(k + 1 - start).last() == s@[k as int]);
        let digit = (s[k] as u32 - '0' as u32) as u64;
        let next = value * 10 + digit;
        assert(next == digits_value(d.take(k + 1 - start)));
        if next > u32::MAX as u64 {
            proof {
                lemma_digits_value_prefix(d, k + 1 - start);
            }
            assert(digits_value(d) > u32::MAX);
            return None;
        }
        value = next;
        k = k + 1;
    }
    assert(d.take(k - start) =~= d);
    Some(value as u32)
}

/// The version that one comma-separated clause of a specifier names: a
/// `>=` or `==` clause whose version has a major and a minor number.
pub open spec fn clause_version(part: Seq<char>) -> Option<(u32, u32)> {
    let t = trim(part);
    if t.len() >= 2 && ((t[0] == '>' && t[1] == '=') || (t[0] == '=' && t[1] == '=')) {
        let parts = split_by(trim(t.skip(2)), one_of(seq!['.']));
        if parts.len() >= 2 {
            match (parse_u32_spec(parts[0]), parse_u32_spec(parts[1])) {
                (Some(major), Some(minor)) => Some((major, minor)),
                _ => None,
            }
        } else {
            None
        }
    } else {
        None
    }
}

/// The version of the first clause among `parts` that names one.
pub open spec fn first_version(parts: Seq<Seq<char>>) -> Option<(u32, u32)>
    decreases parts.len(),
{
    if parts.len() == 0 {
        None
    } else {
        match clause_version(parts[0]) {
            Some(v) => Some(v),
            None => first_version(parts.drop_first()),
        }
    }
}

/// The minimum version that a `requires-python` specifier states: that of
/// its first `>=` or `==` clause with a major and a minor number.
pub open spec fn min_python_version(spec: Seq<char>) -> Option<(u32, u32)> {
    first_version(split_by(spec, one_of(seq![','])))
}

/// The version that the clause `part` names, if it names one.
pub fn version_of_clause(part: &[char]) -> (r: Option<(u32, u32)>)
    ensures
        r == clause_version(part@),
{
    let t = trimmed(part);
    let ge = chars_of(">=");
    let eq = chars_of("==");
    proof {
        reveal_strlit(">=");
        reveal_strlit("==");
    }
    let is_ge = starts_with(t.as_slice(), ge.as_slice());
    let is_eq = starts_with(t.as_slice(), eq.as_slice());
    assert(is_ge == (t@.len() >= 2 && t@[0] == '>' && t@[1] == '=')) by {
        if t@.len() >= 2 {
            assert(t@.take(2)[0] == t@[0] && t@.take(2)[1] == t@[1]);
            if t@[0] == '>' && t@[1] == '=' {
                assert(t@.take(2) =~= ge@);
            }
        }
    }
    assert(is_eq == (t@.len() >= 2 && t@[0] == '=' && t@[1] == '=')) by {
        if t@.len() >= 2 {
            assert(t@.take(2)[0] == t@[0] && t@.take(2)[1] == t@[1]);
            if t@[0] == '=' && t@[1] == '=' {
                assert(t@.take(2) =~= eq@);
            }
        }
    }
    if !(is_ge || is_eq) {
        return None;
    }
    let rest = suffix_from(t.as_slice(), 2);
    let v = trimmed(rest.as_slice());
    let dot = ['.'];
    let parts = split_any(v.as_slice(), &dot);
    assert(dot@ =~= seq!['.']);
    if parts.len() < 2 {
        return None;
    }
    let major = parse_u32(parts[0].as_slice());
    let minor = parse_u32(parts[1].as_slice());
    assert(views(parts@)[0] == parts@[0]@);
    assert(views(parts@)[1] == parts@[1]@);
    match (major, minor) {
        (Some(a), Some(b)) => Some((a, b)),
        _ => None,
    }
}

/// The minimum Python version that the specifier `spec` states: the first
/// comma-separated clause of the form `>=X.Y…` or `==X.Y…` (white space
/// around it and after the operator allowed) whose `X` and `Y` are numbers.
pub fn parse_min_python_version(spec: &str) -> (r: Option<(u32, u32)>)
    ensures
        r == min_python_version(spec@),
{
    let s = chars_of(spec);
    let comma = [','];
    assert(comma@ =~= seq![',']);
    let parts = split_any(s.as_slice(), &comma);
    let ghost all = views(parts@);
    let mut i: usize = 0;
    assert(all.skip(0) =~= all);
    while i < parts.len()
        invariant
            i <= parts@.len(),
            all == views(parts@),
            s@ == spec@,
            all == split_by(s@, one_of(seq![','])),
            first_version(all) == first_version(all.skip(i as int)),
        decreases parts.len() - i,
    {
        assert(all.skip(i as int).drop_first() =~= all.skip(i + 1));
        assert(all.skip(i as int)[0] == parts@[i as int]@);
        if let Some(v) = version_of_clause(parts[i].as_slice()) {
            assert(first_version(all.skip(i as int)) == Some(v));
            return Some(v);
        }
        i = i + 1;
    }
    None
}

proof fn lemma_split_by_concat(x: Seq<char>, c: char, y: Seq<char>, f: spec_fn(char) -> bool)
    requires
        f(c),
    ensures
        split_by(x + seq![c] + y, f) == split_by(x, f) + split_by(y, f),
    decreases y.len(),
{
    let whole = x + seq![c] + y;
    if y.len() == 0 {
        assert(whole =~= x.push(c));
        assert(whole.drop_last() =~= x);
        assert(split_by(x, f) + split_by(y, f) =~= split_by(x, f).push(Seq::empty()));
    } else {
        let y1 = y.drop_last();
        assert(whole.drop_last() =~= x + seq![c] + y1);
        assert(whole.last() == y.last());
        lemma_split_by_concat(x, c, y1, f);
        lemma_split_by_nonempty(y1, f);
        let a = split_by(x, f);
        let b = split_by(y1, f);
        if f(y.last()) {
            assert((a + b).push(Seq::empty()) =~= a + b.push(Seq::empty()));
        } else {
            assert((a + b).update((a + b).len() - 1, (a + b).last().push(y.last())) =~= a
                + b.update(b.len() - 1, b.last().push(y.last())));
        }
    }
}

proof fn lemma_first_version_concat(p: Seq<Seq<char>>, q: Seq<Seq<char>>)
    ensures
        first_version(p + q) == (match first_version(p) {
            Some(v) => Some(v),
            None => first_version(q),
        }),
    decreases p.len(),
{
    if p.len() == 0 {
        assert(p + q =~= q);
    } else {
        assert((p + q)[0] == p[0]);
        assert((p + q).drop_first() =~= p.drop_first() + q);
        lemma_first_version_concat(p.drop_first(), q);
    }
}

/// Law: the clauses of a specifier are read in order, and the first one
/// that names a minimum version decides; later clauses only matter when
/// the earlier ones name none.
pub proof fn law_first_clause_decides(first: Seq<char>, rest: Seq<char>)
    ensures
        min_python_version(first + seq![','] + rest) == (match min_python_version(first) {
            Some(v) => Some(v),
            None => min_python_version(rest),
        }),
{
    let f = one_of(seq![',']);
    assert(seq![','][0] == ',');
    assert(f(','));
    lemma_split_by_concat(first, ',', rest, f);
    lemma_first_version_concat(split_by(first, f), split_by(rest, f));
}

} // verus!
