//! Inline suppression: a comment `# slopcop: ignore` on a line silences
//! every finding on that line; `# slopcop: ignore[id1, id2]` silences the
//! findings of the listed rules only.

use vstd::prelude::*;
use crate::diagnostic::{diag_views, Diagnostic, DiagnosticView};
use crate::text::{
    chars_are, chars_of, is_white_space, one_of, split_any, split_by, starts_with, suffix_from, trim,
    trimmed, views, white_space,
};

verus! {

broadcast use vstd::string::group_string_axioms;

/// The marker that starts a suppression comment.
pub open spec fn marker() -> Seq<char> {
    "# slopcop: ignore"@
}

/// The lines of `source`: its pieces between `\n` characters.
pub open spec fn source_lines(source: Seq<char>) -> Seq<Seq<char>> {
    split_by(source, one_of(seq!['\n']))
}

/// The first position, at or after `from`, where `pat` occurs in `s`; -1
/// where it does not occur there.
pub open spec fn find_from(s: Seq<char>, pat: Seq<char>, from: int) -> int
    decreases s.len() + 1 - from,
{
    if from < 0 || from > s.len() || from + pat.len() > s.len() {
        -1
    } else if s.subrange(from, from + pat.len()) == pat {
        from
    } else {
        find_from(s, pat, from + 1)
    }
}

pub proof fn lemma_find_from_range(s: Seq<char>, pat: Seq<char>, from: int)
    ensures
        find_from(s, pat, from) == -1 || (from <= find_from(s, pat, from) && find_from(s, pat, from)
            + pat.len() <= s.len()),
    decreases s.len() + 1 - from,
{
    if !(from < 0 || from > s.len() || from + pat.len() > s.len()) && s.subrange(
        from,
        from + pat.len(),
    ) != pat {
        lemma_find_from_range(s, pat, from + 1);
    }
}

/// The first position of `c` in `s`; -1 where it does not occur.
pub open spec fn char_index(s: Seq<char>, c: char) -> int {
    find_from(s, seq![c], 0)
}

/// The rule ids listed in `list` (the text between `[` and `]`): its pieces
/// between commas, trimmed.
pub open spec fn listed_ids(list: Seq<char>) -> Seq<Seq<char>> {
    split_by(list, one_of(seq![','])).map_values(|p: Seq<char>| trim(p))
}

/// Whether the text `rest` that follows the marker silences the rule
/// `rule`: the marker ends the line or is followed by white space (every
/// rule), or it is followed by `[`, a comma-separated list of ids that
/// holds `rule`, and `]`.
pub open spec fn rest_silences(rest: Seq<char>, rule: Seq<char>) -> bool {
    if rest.len() == 0 || is_white_space(rest[0]) {
        true
    } else if rest[0] == '[' {
        let close = char_index(rest, ']');
        close >= 1 && listed_ids(rest.subrange(1, close)).contains(rule)
    } else {
        false
    }
}

/// Whether the line `line` silences the rule `rule`: its first suppression
/// marker does.
pub open spec fn line_silences(line: Seq<char>, rule: Seq<char>) -> bool {
    let at = find_from(line, marker(), 0);
    at >= 0 && rest_silences(line.skip(at + marker().len()), rule)
}

/// Whether the finding `d` is silenced by the line it is on (lines counted
/// from 1) among `lines`.
pub open spec fn silenced(lines: Seq<Seq<char>>, d: DiagnosticView) -> bool {
    1 <= d.line <= lines.len() && line_silences(lines[d.line - 1], d.rule_id)
}

/// The findings among `found` that no line of `lines` silences, in order.
pub open spec fn unsilenced(lines: Seq<Seq<char>>, found: Seq<DiagnosticView>) -> Seq<
    DiagnosticView,
>
    decreases found.len(),
{
    if found.len() == 0 {
        Seq::empty()
    } else {
        let prev = unsilenced(lines, found.drop_last());
        if silenced(lines, found.last()) {
            prev
        } else {
            prev.push(found.last())
        }
    }
}

/// The first position, at or after `from`, where `pat` occurs in `s`.
fn position_from(s: &[char], pat: &[char], from: usize) -> (r: Option<usize>)
    ensures
        match r {
            Some(i) => i == find_from(s@, pat@, from as int),
            None => find_from(s@, pat@, from as int) == -1,
        },
{
    if pat.len() > s.len() {
        return None;
    }
    let last = s.len() - pat.len();
    let mut i: usize = from;
    while i <= last
        invariant
            from <= i,
            last == s@.len() - pat@.len(),
            find_from(s@, pat@, from as int) == find_from(s@, pat@, i as int),
        decreases last + 1 - i,
    {
        let tail = suffix_from(s, i);
        assert(tail@.take(pat@.len() as int) =~= s@.subrange(i as int, i + pat@.len()));
        if starts_with(tail.as_slice(), pat) {
            return Some(i);
        }
        if i == last {
            assert(find_from(s@, pat@, i + 1) == -1);
            return None;
        }
        i = i + 1;
    }
    None
}

/// Whether the comma-separated list `list` names the rule `rule`.
fn list_names(list: &[char], rule: &str) -> (r: bool)
    ensures
        r == listed_ids(list@).contains(rule@),
{
    let comma = [','];
    assert(comma@ =~= seq![',']);
    let pieces = split_any(list, &comma);
    let ghost all = split_by(list@, one_of(seq![',']));
    let ghost ids = listed_ids(list@);
    let mut i: usize = 0;
    while i < pieces.len()
        invariant
            i <= pieces@.len(),
            views(pieces@) == all,
            all == split_by(list@, one_of(seq![','])),
            ids == listed_ids(list@),
            forall|j: int| 0 <= j < i ==> ids[j] != rule@,
        decreases pieces.len() - i,
    {
        assert(all[i as int] == pieces@[i as int]@);
        let id = trimmed(pieces[i].as_slice());
        if chars_are(id.as_slice(), rule) {
            assert(ids[i as int] == rule@);
            return true;
        }
        i = i + 1;
    }
    assert forall|j: int| 0 <= j < ids.len() implies ids[j] != rule@ by {}
    false
}

/// Whether the line `line` silences the rule `rule`.
pub fn silences(line: &[char], rule: &str) -> (r: bool)
    ensures
        r == line_silences(line@, rule@),
{
    let m = chars_of("# slopcop: ignore");
    proof {
        reveal_strlit("# slopcop: ignore");
        lemma_find_from_range(line@, m@, 0);
    }
    let at = match position_from(line, m.as_slice(), 0) {
        Some(at) => at,
        None => return false,
    };
    let m_len = m.len();
    let n = line.len();
    assert(at + m_len <= n);
    let rest = suffix_from(line, at + m_len);
    if rest.len() == 0 || white_space(rest[0]) {
        return true;
    }
    if rest[0] != '[' {
        return false;
    }
    let close_mark = [']'];
    assert(close_mark@ =~= seq![']']);
    proof {
        lemma_find_from_range(rest@, close_mark@, 0);
    }
    match position_from(rest.as_slice(), &close_mark, 0) {
        Some(close) => {
            if close == 0 {
                return false;
            }
            let mut list: Vec<char> = Vec::new();
            let mut k: usize = 1;
            while k < close
                invariant
                    1 <= k <= close <= rest@.len(),
                    list@ == rest@.subrange(1, k as int),
                decreases close - k,
            {
                list.push(rest[k]);
                k = k + 1;
            }
            list_names(list.as_slice(), rule)
        },
        None => false,
    }
}

/// The findings among `found` that the lines of `source` do not silence,
/// in order.
pub fn without_silenced(source: &str, found: &[Diagnostic]) -> (r: Vec<Diagnostic>)
    ensures
        diag_views(r@) == unsilenced(source_lines(source@), diag_views(found@)),
{
    let text = chars_of(source);
    let newline = ['\n'];
    assert(newline@ =~= seq!['\n']);
    let lines = split_any(text.as_slice(), &newline);
    let ghost all_lines = source_lines(source@);
    let ghost all = diag_views(found@);
    let mut kept: Vec<Diagnostic> = Vec::new();
    let mut i: usize = 0;
    while i < found.len()
        invariant
            i <= found@.len(),
            views(lines@) == all_lines,
            all == diag_views(found@),
            diag_views(kept@) == unsilenced(all_lines, all.take(i as int)),
        decreases found.len() - i,
    {
        let d = &found[i];
        assert(all.take(i + 1).drop_last() =~= all.take(i as int));
        assert(all.take(i + 1).last() == d@);
        let line = d.line;
        let hit = if 1 <= line && line <= lines.len() {
            assert(lines@[line - 1]@ == all_lines[line - 1]);
            silences(lines[line - 1].as_slice(), d.rule_id)
        } else {
            false
        };
        if !hit {
            let copy = Diagnostic {
                path: d.path.clone(),
                line: d.line,
                col: d.col,
                rule_id: d.rule_id,
                severity: d.severity,
                message: d.message.clone(),
            };
            let ghost prev = diag_views(kept@);
            kept.push(copy);
            assert(diag_views(kept@) =~= prev.push(d@));
        }
        i = i + 1;
    }
    assert(all.take(i as int) =~= all);
    kept
}

proof fn lemma_find_first(s: Seq<char>, pat: Seq<char>, from: int, to: int)
    requires
        0 <= from <= to,
        pat.len() > 0,
        to + pat.len() <= s.len(),
        s.subrange(to, to + pat.len()) == pat,
        forall|i: int| from <= i < to ==> s[i] != pat[0],
    ensures
        find_from(s, pat, from) == to,
    decreases to - from,
{
    if from < to {
        assert(s.subrange(from, from + pat.len())[0] == s[from]);
        lemma_find_first(s, pat, from + 1, to);
    }
}

/// Law: a line whose code holds no `#` and whose comment is the bare
/// marker, at the end of the line or followed by white space, silences
/// every rule.
pub proof fn law_bare_marker_silences_all(code: Seq<char>, after: Seq<char>, rule: Seq<char>)
    requires
        !code.contains('#'),
        after.len() == 0 || is_white_space(after[0]),
    ensures
        line_silences(code + marker() + after, rule),
{
    reveal_strlit("# slopcop: ignore");
    let line = code + marker() + after;
    let m = marker();
    assert(line.subrange(code.len() as int, (code.len() + m.len()) as int) =~= m);
    assert forall|i: int| 0 <= i < code.len() implies line[i] != m[0] by {
        assert(line[i] == code[i]);
        assert(code.contains(code[i]));
    }
    lemma_find_first(line, m, 0, code.len() as int);
    assert(line.skip((code.len() + m.len()) as int) =~= after);
}

/// Law: a line whose code holds no `#` and whose comment is the marker
/// followed by `[ids]` silences exactly the rules that the comma-separated
/// list `ids` names.
pub proof fn law_listed_marker_silences_listed(
    code: Seq<char>,
    ids: Seq<char>,
    tail: Seq<char>,
    rule: Seq<char>,
)
    requires
        !code.contains('#'),
        !ids.contains(']'),
    ensures
        line_silences(code + marker() + seq!['['] + ids + seq![']'] + tail, rule)
            == listed_ids(ids).contains(rule),
{
    reveal_strlit("# slopcop: ignore");
    let m = marker();
    let after = seq!['['] + ids + seq![']'] + tail;
    let line = code + m + after;
    assert(line =~= code + marker() + seq!['['] + ids + seq![']'] + tail);
    assert(line.subrange(code.len() as int, (code.len() + m.len()) as int) =~= m);
    assert forall|i: int| 0 <= i < code.len() implies line[i] != m[0] by {
        assert(line[i] == code[i]);
        assert(code.contains(code[i]));
    }
    lemma_find_first(line, m, 0, code.len() as int);
    assert(line.skip((code.len() + m.len()) as int) =~= after);
    let close: int = ids.len() as int + 1;
    assert(after.subrange(close, close + 1) =~= seq![']']);
    assert forall|i: int| 0 <= i < close implies after[i] != seq![']'][0] by {
        if i > 0 {
            assert(after[i] == ids[i - 1]);
            assert(ids.contains(ids[i - 1]));
        }
    }
    lemma_find_first(after, seq![']'], 0, close);
    assert(after.subrange(1, close) =~= ids);
}

/// Law: suppression only removes findings: a finding is kept exactly when
/// it is among `found` and its line does not silence it, and no more
/// findings come out than went in.
pub proof fn law_unsilenced_keeps_exactly(lines: Seq<Seq<char>>, found: Seq<DiagnosticView>)
    ensures
        unsilenced(lines, found).len() <= found.len(),
        forall|d: DiagnosticView|
            unsilenced(lines, found).contains(d) <==> (found.contains(d) && !silenced(lines, d)),
    decreases found.len(),
{
    if found.len() > 0 {
        let init = found.drop_last();
        law_unsilenced_keeps_exactly(lines, init);
        let prev = unsilenced(lines, init);
        assert forall|d: DiagnosticView|
            unsilenced(lines, found).contains(d) <==> (found.contains(d) && !silenced(lines, d)) by {
            if found.contains(d) {
                let k = choose|k: int| 0 <= k < found.len() && found[k] == d;
                if k < init.len() {
                    assert(init[k] == d);
                }
            }
            if init.contains(d) {
                let k = choose|k: int| 0 <= k < init.len() && init[k] == d;
                assert(found[k] == d);
            }
            if !silenced(lines, found.last()) {
                let now = prev.push(found.last());
                if now.contains(d) {
                    let k = choose|k: int| 0 <= k < now.len() && now[k] == d;
                    if k < prev.len() {
                        assert(prev[k] == d);
                    }
                }
                if prev.contains(d) {
                    let k = choose|k: int| 0 <= k < prev.len() && prev[k] == d;
                    assert(now[k] == d);
                }
                assert(now[now.len() - 1] == found.last());
            }
            assert(found[found.len() - 1] == found.last());
        }
    }
}

pub proof fn lemma_find_from_found(s: Seq<char>, pat: Seq<char>, from: int)
    ensures
        find_from(s, pat, from) >= 0 ==> s.subrange(
            find_from(s, pat, from),
            find_from(s, pat, from) + pat.len(),
        ) == pat,
    decreases s.len() + 1 - from,
{
    if !(from < 0 || from > s.len() || from + pat.len() > s.len()) && s.subrange(
        from,
        from + pat.len(),
    ) != pat {
        lemma_find_from_found(s, pat, from + 1);
    }
}

/// A line without `#` silences nothing.
pub proof fn lemma_no_hash_silences_nothing(line: Seq<char>, rule: Seq<char>)
    requires
        !line.contains('#'),
    ensures
        !line_silences(line, rule),
{
    reveal_strlit("# slopcop: ignore");
    let m = marker();
    lemma_find_from_found(line, m, 0);
    lemma_find_from_range(line, m, 0);
    let at = find_from(line, m, 0);
    if at >= 0 {
        assert(line.subrange(at, at + m.len())[0] == line[at]);
        assert(line[at] == '#');
    }
}

/// Law: a finding is silenced only by a marker on its own line. Every
/// finding whose own line holds no `#` (or whose line is not among
/// `lines`) is kept, whatever the other lines say, and a silenced finding's
/// own line silences its rule.
pub proof fn law_only_own_line_silences(
    lines: Seq<Seq<char>>,
    found: Seq<DiagnosticView>,
    d: DiagnosticView,
)
    ensures
        silenced(lines, d) ==> 1 <= d.line <= lines.len() && line_silences(
            lines[d.line - 1],
            d.rule_id,
        ),
        found.contains(d) && (d.line < 1 || d.line > lines.len() || !lines[d.line
            - 1].contains('#')) ==> unsilenced(lines, found).contains(d),
{
    law_unsilenced_keeps_exactly(lines, found);
    if 1 <= d.line <= lines.len() && !lines[d.line - 1].contains('#') {
        lemma_no_hash_silences_nothing(lines[d.line - 1], d.rule_id);
    }
}

} // verus!
