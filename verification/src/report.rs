//! Preparing a report: the order in which findings are listed, their
//! grouping by rule, the counts by severity, the exit status, and the
//! wrapping of help text.

use vstd::prelude::*;
use crate::diagnostic::{diag_views, Diagnostic, DiagnosticView};
use crate::rules::{str_slice_views, Severity};
use crate::text::{chars_of, is_white_space, split_by, string_of, suffix_from, views, white_space};

verus! {

broadcast use vstd::string::group_string_axioms;

/// Whether `a` comes strictly before `b` in lexicographic order of code
/// points (for strings, the order of their UTF-8 bytes, which is how
/// `str` and `String` compare).
pub open spec fn text_less(a: Seq<char>, b: Seq<char>) -> bool
    decreases a.len(),
{
    if a.len() == 0 {
        b.len() > 0
    } else if b.len() == 0 {
        false
    } else if (a[0] as int) < (b[0] as int) {
        true
    } else if (a[0] as int) > (b[0] as int) {
        false
    } else {
        text_less(a.drop_first(), b.drop_first())
    }
}

pub proof fn lemma_text_less_irreflexive(a: Seq<char>)
    ensures
        !text_less(a, a),
    decreases a.len(),
{
    if a.len() > 0 {
        lemma_text_less_irreflexive(a.drop_first());
    }
}

pub proof fn lemma_text_less_transitive(a: Seq<char>, b: Seq<char>, c: Seq<char>)
    requires
        text_less(a, b),
        text_less(b, c),
    ensures
        text_less(a, c),
    decreases a.len(),
{
    if a.len() > 0 && b.len() > 0 && c.len() > 0 && a[0] == b[0] && b[0] == c[0] {
        lemma_text_less_transitive(a.drop_first(), b.drop_first(), c.drop_first());
    }
}

pub proof fn lemma_text_less_total(a: Seq<char>, b: Seq<char>)
    ensures
        text_less(a, b) || text_less(b, a) || a == b,
    decreases a.len(),
{
    if a.len() > 0 && b.len() > 0 {
        if a[0] == b[0] {
            lemma_text_less_total(a.drop_first(), b.drop_first());
            if a.drop_first() == b.drop_first() {
                assert(a =~= seq![a[0]] + a.drop_first());
                assert(b =~= seq![b[0]] + b.drop_first());
            }
        } else {
            assert((a[0] as int) != (b[0] as int));
        }
    } else if a.len() == 0 && b.len() == 0 {
        assert(a =~= b);
    }
}

/// Whether the finding `a` is listed strictly before `b`: by path, then
/// line, then column.
pub open spec fn key_less(a: DiagnosticView, b: DiagnosticView) -> bool {
    ||| text_less(a.path, b.path)
    ||| (a.path == b.path && a.line < b.line)
    ||| (a.path == b.path && a.line == b.line && a.col < b.col)
}

/// Whether `a` and `b` are at the same place.
pub open spec fn same_key(a: DiagnosticView, b: DiagnosticView) -> bool {
    a.path == b.path && a.line == b.line && a.col == b.col
}

/// Whether the index `i` into `ds` is listed before the index `j`: by
/// place, and in the given order among findings at the same place.
pub open spec fn listed_before(ds: Seq<DiagnosticView>, i: int, j: int) -> bool {
    key_less(ds[i], ds[j]) || (same_key(ds[i], ds[j]) && i < j)
}

/// Whether `order` lists every index into `ds` once, in listing order.
pub open spec fn is_listing_order(ds: Seq<DiagnosticView>, order: Seq<usize>) -> bool {
    &&& order.len() == ds.len()
    &&& forall|i: int| 0 <= i < order.len() ==> (#[trigger] order[i]) < ds.len()
    &&& forall|i: int, j: int|
        0 <= i < j < order.len() ==> listed_before(ds, #[trigger] order[i] as int, #[trigger] order[j] as int)
}

proof fn lemma_key_order(a: DiagnosticView, b: DiagnosticView, c: DiagnosticView)
    ensures
        key_less(a, b) || key_less(b, a) || same_key(a, b),
        !(key_less(a, b) && key_less(b, a)),
        !(key_less(a, b) && same_key(a, b)),
        key_less(a, b) && key_less(b, c) ==> key_less(a, c),
        key_less(a, b) && same_key(b, c) ==> key_less(a, c),
        same_key(a, b) && key_less(b, c) ==> key_less(a, c),
{
    lemma_text_less_total(a.path, b.path);
    lemma_text_less_irreflexive(a.path);
    if text_less(a.path, b.path) && text_less(b.path, a.path) {
        lemma_text_less_transitive(a.path, b.path, a.path);
    }
    if text_less(a.path, b.path) && text_less(b.path, c.path) {
        lemma_text_less_transitive(a.path, b.path, c.path);
    }
}

/// Whether `a` comes strictly before `b`.
fn text_before(a: &str, b: &str) -> (r: bool)
    ensures
        r == text_less(a@, b@),
{
    let x = crate::text::chars_of(a);
    let y = crate::text::chars_of(b);
    let mut i: usize = 0;
    assert(x@.skip(0) =~= x@);
    assert(y@.skip(0) =~= y@);
    while i < x.len() && i < y.len() && x[i] == y[i]
        invariant
            i <= x@.len(),
            i <= y@.len(),
            text_less(a@, b@) == text_less(x@.skip(i as int), y@.skip(i as int)),
            x@ == a@,
            y@ == b@,
        decreases x.len() - i,
    {
        assert(x@.skip(i as int).drop_first() =~= x@.skip(i + 1));
        assert(y@.skip(i as int).drop_first() =~= y@.skip(i + 1));
        i = i + 1;
    }
    if i == x.len() {
        return i < y.len();
    }
    if i == y.len() {
        return false;
    }
    assert(x@.skip(i as int)[0] == x@[i as int]);
    assert(y@.skip(i as int)[0] == y@[i as int]);
    x[i] < y[i]
}

fn diag_less(a: &Diagnostic, b: &Diagnostic) -> (r: bool)
    ensures
        r == key_less(a@, b@),
{
    if text_before(a.path.as_str(), b.path.as_str()) {
        return true;
    }
    if a.path != b.path {
        return false;
    }
    a.line < b.line || (a.line == b.line && a.col < b.col)
}

/// The order in which to list `ds`: by path (as strings compare), then
/// line, then column; findings at the same place keep their order. The
/// result lists each index into `ds` once.
pub fn listing_order(ds: &Vec<Diagnostic>) -> (r: Vec<usize>)
    ensures
        is_listing_order(diag_views(ds@), r@),
        forall|i: int, j: int| 0 <= i < j < r@.len() ==> r@[i] != r@[j],
{
    let ghost v = diag_views(ds@);
    let mut order: Vec<usize> = Vec::new();
    let mut k: usize = 0;
    while k < ds.len()
        invariant
            k <= ds@.len(),
            v == diag_views(ds@),
            order@.len() == k,
            forall|i: int| 0 <= i < order@.len() ==> (#[trigger] order@[i]) < k,
            forall|i: int, j: int|
                0 <= i < j < order@.len() ==> listed_before(v, #[trigger] order@[i] as int, #[trigger] order@[j] as int),
        decreases ds.len() - k,
    {
        let mut p: usize = 0;
        while p < order.len() && !diag_less(&ds[k], &ds[order[p]])
            invariant
                p <= order@.len(),
                k < ds@.len(),
                v == diag_views(ds@),
                forall|i: int| 0 <= i < order@.len() ==> (#[trigger] order@[i]) < k,
                forall|i: int| 0 <= i < p ==> !key_less(v[k as int], v[#[trigger] order@[i] as int]),
            decreases order.len() - p,
        {
            p = p + 1;
        }
        let ghost before = order@;
        order.insert(p, k);
        proof {
            assert forall|i: int, j: int|
                0 <= i < j < order@.len() implies listed_before(
                    v,
                    #[trigger] order@[i] as int,
                    #[trigger] order@[j] as int,
                ) by {
                if i < p && j < p {
                    assert(order@[i] == before[i] && order@[j] == before[j]);
                } else if i < p && j == p {
                    assert(order@[i] == before[i]);
                    lemma_key_order(v[before[i] as int], v[k as int], v[k as int]);
                } else if i < p && j > p {
                    assert(order@[i] == before[i] && order@[j] == before[j - 1]);
                    assert(listed_before(v, before[i] as int, before[j - 1] as int));
                } else if i == p {
                    assert(order@[j] == before[j - 1]);
                    assert(p < before.len());
                    lemma_key_order(v[k as int], v[before[p as int] as int], v[before[j - 1] as int]);
                    if j - 1 > p {
                        assert(listed_before(v, before[p as int] as int, before[j - 1] as int));
                    }
                } else {
                    assert(order@[i] == before[i - 1] && order@[j] == before[j - 1]);
                    assert(listed_before(v, before[i - 1] as int, before[j - 1] as int));
                }
            }
            assert forall|i: int| 0 <= i < order@.len() implies (#[trigger] order@[i]) < k + 1 by {
                if i < p {
                    assert(order@[i] == before[i]);
                } else if i > p {
                    assert(order@[i] == before[i - 1]);
                }
            }
        }
        k = k + 1;
    }
    proof {
        assert forall|i: int, j: int| 0 <= i < j < order@.len() implies order@[i] != order@[j] by {
            assert(listed_before(v, order@[i] as int, order@[j] as int));
            lemma_key_order(v[order@[i] as int], v[order@[j] as int], v[order@[j] as int]);
        }
    }
    order
}

/// `ds` listed in the order `order`.
pub open spec fn reordered(ds: Seq<DiagnosticView>, order: Seq<usize>) -> Seq<DiagnosticView> {
    order.map_values(|i: usize| ds[i as int])
}

/// A copy of `d`.
fn copy_diagnostic(d: &Diagnostic) -> (r: Diagnostic)
    ensures
        r@ == d@,
{
    Diagnostic {
        path: d.path.clone(),
        line: d.line,
        col: d.col,
        rule_id: d.rule_id,
        severity: d.severity,
        message: d.message.clone(),
    }
}

/// The findings `ds` in listing order: by path, then line, then column,
/// findings at the same place in their given order.
pub fn in_listing_order(ds: &Vec<Diagnostic>) -> (r: Vec<Diagnostic>)
    ensures
        exists|order: Seq<usize>|
            is_listing_order(diag_views(ds@), order) && diag_views(r@) == reordered(
                diag_views(ds@),
                order,
            ),
{
    let order = listing_order(ds);
    let mut out: Vec<Diagnostic> = Vec::new();
    let mut i: usize = 0;
    while i < order.len()
        invariant
            i <= order@.len(),
            is_listing_order(diag_views(ds@), order@),
            diag_views(out@) == reordered(diag_views(ds@), order@.take(i as int)),
        decreases order.len() - i,
    {
        assert(order@[i as int] < ds@.len());
        let d = copy_diagnostic(&ds[order[i]]);
        let ghost before = out@;
        out.push(d);
        assert(diag_views(out@) =~= diag_views(before).push(diag_views(ds@)[order@[i as int] as int]));
        assert(reordered(diag_views(ds@), order@.take(i + 1)) =~= reordered(diag_views(ds@), order@.take(i as int)).push(diag_views(ds@)[order@[i as int] as int]));
        i = i + 1;
    }
    assert(order@.take(i as int) =~= order@);
    out
}

/// The findings of one rule.
pub struct RuleGroup {
    pub rule_id: &'static str,
    /// The severity of the group's first finding.
    pub severity: Severity,
    /// The positions of the rule's findings, in order.
    pub members: Vec<usize>,
}

/// Whether `g` is the group of its rule in `ds`: the positions of all of
/// that rule's findings, in increasing order, none other, and the severity
/// of the first.
pub open spec fn group_holds(ds: Seq<DiagnosticView>, g: RuleGroup) -> bool {
    &&& g.members@.len() > 0
    &&& forall|m: int|
        0 <= m < g.members@.len() ==> (#[trigger] g.members@[m]) < ds.len()
            && ds[g.members@[m] as int].rule_id == g.rule_id@
    &&& forall|m: int, n: int|
        0 <= m < n < g.members@.len() ==> #[trigger] g.members@[m] < #[trigger] g.members@[n]
    &&& g.severity == ds[g.members@[0] as int].severity
    &&& forall|j: int|
        0 <= j < ds.len() && (#[trigger] ds[j]).rule_id == g.rule_id@ ==> g.members@.contains(
            j as usize,
        )
}

/// Whether `groups` groups `ds` by rule: one group per rule id that occurs,
/// ordered by rule id; each holding all the positions of its rule's
/// findings in increasing order, and the severity of its first finding.
pub open spec fn groups_by_rule(ds: Seq<DiagnosticView>, groups: Seq<RuleGroup>) -> bool {
    &&& forall|a: int, b: int|
        0 <= a < b < groups.len() ==> text_less(
            (#[trigger] groups[a]).rule_id@,
            (#[trigger] groups[b]).rule_id@,
        )
    &&& forall|a: int| 0 <= a < groups.len() ==> group_holds(ds, #[trigger] groups[a])
    &&& forall|i: int|
        0 <= i < ds.len() ==> exists|a: int|
            0 <= a < groups.len() && (#[trigger] groups[a]).rule_id@ == (#[trigger] ds[i]).rule_id
                && groups[a].members@.contains(i as usize)
}

/// Whether `a` and `b` hold the same characters.
fn str_same(a: &str, b: &str) -> (r: bool)
    ensures
        r == (a@ == b@),
{
    let x = crate::text::chars_of(a);
    crate::text::chars_are(x.as_slice(), b)
}

/// The rule ids of the findings `ds`, in order.
pub open spec fn id_seq(ds: Seq<Diagnostic>) -> Seq<Seq<char>> {
    ds.map_values(|d: Diagnostic| d.rule_id@)
}

proof fn lemma_push_contains<A>(s: Seq<A>, a: A, x: A)
    ensures
        s.push(a).contains(x) <==> (s.contains(x) || x == a),
{
    if s.push(a).contains(x) {
        let k = choose|k: int| 0 <= k < s.push(a).len() && s.push(a)[k] == x;
        if k < s.len() {
            assert(s[k] == x);
        }
    }
    if s.contains(x) {
        let k = choose|k: int| 0 <= k < s.len() && s[k] == x;
        assert(s.push(a)[k] == x);
    }
    if x == a {
        assert(s.push(a)[s.len() as int] == x);
    }
}

proof fn lemma_insert_contains<A>(s: Seq<A>, p: int, a: A, x: A)
    requires
        0 <= p <= s.len(),
    ensures
        s.insert(p, a).contains(x) <==> (s.contains(x) || x == a),
{
    let t = s.insert(p, a);
    if t.contains(x) {
        let k = choose|k: int| 0 <= k < t.len() && t[k] == x;
        if k < p {
            assert(s[k] == x);
        } else if k > p {
            assert(s[k - 1] == x);
        }
    }
    if s.contains(x) {
        let k = choose|k: int| 0 <= k < s.len() && s[k] == x;
        if k < p {
            assert(t[k] == x);
        } else {
            assert(t[k + 1] == x);
        }
    }
    if x == a {
        assert(t[p] == x);
    }
}

/// Whether the strings `v` are in strictly increasing order.
pub open spec fn strictly_increasing(v: Seq<Seq<char>>) -> bool {
    forall|a: int, b: int| 0 <= a < b < v.len() ==> text_less(#[trigger] v[a], #[trigger] v[b])
}

/// The rule ids that occur in `ds`, each once, in increasing order.
fn rule_ids(ds: &Vec<Diagnostic>) -> (r: Vec<&'static str>)
    ensures
        strictly_increasing(str_slice_views(r@)),
        forall|x: Seq<char>|
            #![trigger str_slice_views(r@).contains(x)]
            #![trigger id_seq(ds@).contains(x)]
            str_slice_views(r@).contains(x) <==> id_seq(ds@).contains(x),
{
    let mut ids: Vec<&'static str> = Vec::new();
    let ghost all = id_seq(ds@);
    let mut i: usize = 0;
    while i < ds.len()
        invariant
            i <= ds@.len(),
            all == id_seq(ds@),
            strictly_increasing(str_slice_views(ids@)),
            forall|x: Seq<char>|
                #![trigger str_slice_views(ids@).contains(x)]
                #![trigger all.take(i as int).contains(x)]
                str_slice_views(ids@).contains(x) <==> all.take(i as int).contains(x),
        decreases ds.len() - i,
    {
        let id = ds[i].rule_id;
        assert(all.take(i + 1) =~= all.take(i as int).push(id@));
        let ghost before = str_slice_views(ids@);
        let mut p: usize = 0;
        while p < ids.len() && text_before(ids[p], id)
            invariant
                p <= ids@.len(),
                before == str_slice_views(ids@),
                forall|a: int| 0 <= a < p ==> text_less(#[trigger] before[a], id@),
            decreases ids.len() - p,
        {
            p = p + 1;
        }
        if p < ids.len() && str_same(ids[p], id) {
            proof {
                assert(before[p as int] == id@);
                assert forall|x: Seq<char>|
                    #![trigger str_slice_views(ids@).contains(x)]
                    #![trigger all.take(i + 1).contains(x)]
                    str_slice_views(ids@).contains(x) <==> all.take(i + 1).contains(x) by {
                    lemma_push_contains(all.take(i as int), id@, x);
                    assert(all.take(i as int).contains(x) <==> before.contains(x));
                }
            }
        } else {
            ids.insert(p, id);
            proof {
                assert(str_slice_views(ids@) =~= before.insert(p as int, id@));
                if p < before.len() {
                    lemma_text_less_total(before[p as int], id@);
                }
                let after = str_slice_views(ids@);
                assert forall|a: int, b: int| 0 <= a < b < after.len() implies text_less(
                    #[trigger] after[a],
                    #[trigger] after[b],
                ) by {
                    if b < p {
                        assert(after[a] == before[a] && after[b] == before[b]);
                    } else if b == p {
                        assert(after[a] == before[a]);
                    } else if a < p {
                        assert(after[a] == before[a] && after[b] == before[b - 1]);
                    } else if a == p {
                        assert(after[b] == before[b - 1]);
                        if b - 1 > p {
                            assert(text_less(before[p as int], before[b - 1]));
                            lemma_text_less_transitive(id@, before[p as int], before[b - 1]);
                        }
                    } else {
                        assert(after[a] == before[a - 1] && after[b] == before[b - 1]);
                    }
                }
                assert forall|x: Seq<char>|
                    #![trigger str_slice_views(ids@).contains(x)]
                    #![trigger all.take(i + 1).contains(x)]
                    str_slice_views(ids@).contains(x) <==> all.take(i + 1).contains(x) by {
                    lemma_push_contains(all.take(i as int), id@, x);
                    lemma_insert_contains(before, p as int, id@, x);
                    assert(all.take(i as int).contains(x) <==> before.contains(x));
                }
            }
        }
        i = i + 1;
    }
    assert(all.take(i as int) =~= all);
    ids
}

/// The positions of the findings of `id` in `ds`, in increasing order.
fn members_of(ds: &Vec<Diagnostic>, id: &str) -> (r: Vec<usize>)
    ensures
        forall|m: int| 0 <= m < r@.len() ==> (#[trigger] r@[m]) < ds@.len() && ds@[r@[m] as int].rule_id@ == id@,
        forall|m: int, n: int| 0 <= m < n < r@.len() ==> #[trigger] r@[m] < #[trigger] r@[n],
        forall|j: int| 0 <= j < ds@.len() && (#[trigger] ds@[j]).rule_id@ == id@ ==> r@.contains(j as usize),
{
    let mut out: Vec<usize> = Vec::new();
    let mut j: usize = 0;
    while j < ds.len()
        invariant
            j <= ds@.len(),
            forall|m: int| 0 <= m < out@.len() ==> (#[trigger] out@[m]) < j && ds@[out@[m] as int].rule_id@ == id@,
            forall|m: int, n: int| 0 <= m < n < out@.len() ==> #[trigger] out@[m] < #[trigger] out@[n],
            forall|k: int| 0 <= k < j && (#[trigger] ds@[k]).rule_id@ == id@ ==> out@.contains(k as usize),
        decreases ds.len() - j,
    {
        if str_same(ds[j].rule_id, id) {
            let ghost before = out@;
            out.push(j);
            proof {
                assert forall|k: int| 0 <= k < j + 1 && (#[trigger] ds@[k]).rule_id@ == id@ implies out@.contains(k as usize) by {
                    if k < j {
                        let m = choose|m: int| 0 <= m < before.len() && before[m] == k as usize;
                        assert(out@[m] == k as usize);
                    } else {
                        assert(out@[before.len() as int] == j);
                    }
                }
            }
        }
        j = j + 1;
    }
    out
}

/// The findings `ds` grouped by rule: one group per rule id that occurs,
/// ordered by rule id (as strings compare), each with the positions of its
/// findings in order and the severity of its first finding.
pub fn group_by_rule(ds: &Vec<Diagnostic>) -> (r: Vec<RuleGroup>)
    ensures
        groups_by_rule(diag_views(ds@), r@),
{
    let ids = rule_ids(ds);
    let ghost v = diag_views(ds@);
    let ghost iv = str_slice_views(ids@);
    let mut groups: Vec<RuleGroup> = Vec::new();
    let mut a: usize = 0;
    while a < ids.len()
        invariant
            a <= ids@.len(),
            v == diag_views(ds@),
            iv == str_slice_views(ids@),
            groups@.len() == a,
            strictly_increasing(iv),
            forall|x: Seq<char>|
                #![trigger iv.contains(x)]
                #![trigger id_seq(ds@).contains(x)]
                iv.contains(x) <==> id_seq(ds@).contains(x),
            forall|x: int| 0 <= x < a ==> (#[trigger] groups@[x]).rule_id@ == iv[x],
            forall|x: int| 0 <= x < a ==> group_holds(v, #[trigger] groups@[x]),
        decreases ids.len() - a,
    {
        let id = ids[a];
        assert(iv[a as int] == id@);
        assert(iv.contains(id@));
        let members = members_of(ds, id);
        proof {
            assert(id_seq(ds@).contains(id@));
            let j = choose|j: int| 0 <= j < id_seq(ds@).len() && id_seq(ds@)[j] == id@;
            assert(ds@[j].rule_id@ == id@);
            assert(members@.contains(j as usize));
            assert forall|m: int| 0 <= m < members@.len() implies (#[trigger] members@[m])
                < v.len() && v[members@[m] as int].rule_id == id@ by {
                assert(v[members@[m] as int] == ds@[members@[m] as int]@);
            }
            assert forall|j: int| 0 <= j < v.len() && (#[trigger] v[j]).rule_id == id@ implies members@.contains(
                j as usize,
            ) by {
                assert(v[j] == ds@[j]@);
            }
        }
        let severity = ds[members[0]].severity;
        let g = RuleGroup { rule_id: id, severity, members };
        assert(group_holds(v, g));
        groups.push(g);
        a = a + 1;
    }
    proof {
        assert forall|x: int, y: int| 0 <= x < y < groups@.len() implies text_less(
            (#[trigger] groups@[x]).rule_id@,
            (#[trigger] groups@[y]).rule_id@,
        ) by {
            assert(text_less(iv[x], iv[y]));
        }
        assert forall|i: int| 0 <= i < v.len() implies exists|x: int|
            0 <= x < groups@.len() && (#[trigger] groups@[x]).rule_id@ == (#[trigger] v[i]).rule_id
                && groups@[x].members@.contains(i as usize) by {
            assert(v[i] == ds@[i]@);
            assert(id_seq(ds@)[i] == v[i].rule_id);
            assert(id_seq(ds@).contains(v[i].rule_id));
            assert(iv.contains(v[i].rule_id));
            let x = choose|x: int| 0 <= x < iv.len() && iv[x] == v[i].rule_id;
            assert(groups@[x].rule_id@ == iv[x]);
        }
    }
    groups
}

/// How many findings in `ds` have the severity `sev`.
pub open spec fn count_severity(ds: Seq<DiagnosticView>, sev: Severity) -> nat
    decreases ds.len(),
{
    if ds.len() == 0 {
        0
    } else {
        count_severity(ds.drop_last(), sev) + if ds.last().severity == sev {
            1nat
        } else {
            0nat
        }
    }
}

/// The numbers of errors and of warnings among `ds`.
pub fn count_by_severity(ds: &Vec<Diagnostic>) -> (r: (usize, usize))
    ensures
        r.0 == count_severity(diag_views(ds@), Severity::Error),
        r.1 == count_severity(diag_views(ds@), Severity::Warning),
{
    let ghost v = diag_views(ds@);
    let mut errors: usize = 0;
    let mut warnings: usize = 0;
    let mut i: usize = 0;
    while i < ds.len()
        invariant
            i <= ds@.len(),
            v == diag_views(ds@),
            errors == count_severity(v.take(i as int), Severity::Error),
            warnings == count_severity(v.take(i as int), Severity::Warning),
            errors + warnings == i,
        decreases ds.len() - i,
    {
        assert(v.take(i + 1).drop_last() =~= v.take(i as int));
        assert(v.take(i + 1).last() == ds@[i as int]@);
        match ds[i].severity {
            Severity::Error => errors = errors + 1,
            Severity::Warning => warnings = warnings + 1,
        }
        i = i + 1;
    }
    assert(v.take(i as int) =~= v);
    (errors, warnings)
}

/// Whether a run with `errors` errors and `warnings` warnings fails: on any
/// finding, or, where only errors count (`warn_only`), on any error.
pub fn has_violations(errors: usize, warnings: usize, warn_only: bool) -> (r: bool)
    ensures
        r == if warn_only {
            errors > 0
        } else {
            errors + warnings > 0
        },
{
    if warn_only {
        errors > 0
    } else {
        errors > 0 || warnings > 0
    }
}

/// The exit status of a run: 0 when clean, 1 when it found violations, 2
/// when it could not run (`None`).
pub fn exit_code(outcome: Option<bool>) -> (r: i32)
    ensures
        r == match outcome {
            Some(true) => 1i32,
            Some(false) => 0i32,
            None => 2i32,
        },
{
    match outcome {
        Some(true) => 1,
        Some(false) => 0,
        None => 2,
    }
}

/// The plural ending for a count of `n`: none for one, `s` otherwise.
pub fn plural_suffix(n: usize) -> (r: &'static str)
    ensures
        r@ == if n == 1 {
            ""@
        } else {
            "s"@
        },
{
    if n == 1 {
        ""
    } else {
        "s"
    }
}

/// White space as a separator test.
pub open spec fn white() -> spec_fn(char) -> bool {
    |c: char| is_white_space(c)
}

/// The words of `text`: its runs of non-white-space characters, in order,
/// as `str::split_whitespace` gives them.
pub open spec fn words(text: Seq<char>) -> Seq<Seq<char>> {
    split_by(text, white()).filter(|w: Seq<char>| w.len() > 0)
}

/// The number of bytes that `c` takes in UTF-8.
pub open spec fn char_width(c: char) -> nat {
    let u = c as u32;
    if u < 0x80 {
        1
    } else if u < 0x800 {
        2
    } else if u < 0x10000 {
        3
    } else {
        4
    }
}

/// The length of `s` in UTF-8 bytes.
pub open spec fn byte_len(s: Seq<char>) -> nat
    decreases s.len(),
{
    if s.len() == 0 {
        0
    } else {
        byte_len(s.drop_last()) + char_width(s.last())
    }
}

proof fn lemma_byte_len_concat(a: Seq<char>, b: Seq<char>)
    ensures
        byte_len(a + b) == byte_len(a) + byte_len(b),
    decreases b.len(),
{
    if b.len() == 0 {
        assert(a + b =~= a);
    } else {
        assert((a + b).drop_last() =~= a + b.drop_last());
        lemma_byte_len_concat(a, b.drop_last());
    }
}

/// The length of `s` in UTF-8 bytes.
fn byte_len_of(s: &[char]) -> (r: u128)
    ensures
        r == byte_len(s@),
        r <= 4 * s@.len(),
{
    let mut total: u128 = 0;
    let mut i: usize = 0;
    while i < s.len()
        invariant
            i <= s@.len(),
            total == byte_len(s@.take(i as int)),
            total <= 4 * i,
        decreases s.len() - i,
    {
        assert(s@.take(i + 1).drop_last() =~= s@.take(i as int));
        let u = s[i] as u32;
        let w: u128 = if u < 0x80 {
            1
        } else if u < 0x800 {
            2
        } else if u < 0x10000 {
            3
        } else {
            4
        };
        total = total + w;
        i = i + 1;
    }
    assert(s@.take(i as int) =~= s@);
    total
}

/// The lines finished so far and the line being filled, after laying out
/// `ws` greedily in lines of at most `width` bytes (a longer word takes a
/// line of its own).
pub open spec fn layout(ws: Seq<Seq<char>>, width: nat) -> (Seq<Seq<char>>, Seq<char>)
    decreases ws.len(),
{
    if ws.len() == 0 {
        (Seq::empty(), Seq::empty())
    } else {
        let (lines, cur) = layout(ws.drop_last(), width);
        let w = ws.last();
        if cur.len() == 0 {
            (lines, w)
        } else if byte_len(cur) + 1 + byte_len(w) > width {
            (lines.push(cur), w)
        } else {
            (lines, cur + seq![' '] + w)
        }
    }
}

/// `text` wrapped at white space into lines of at most `width` bytes: its
/// words in order, one space between words on a line, a word too long for
/// a line on a line of its own; no empty line.
pub open spec fn wrapped(text: Seq<char>, width: nat) -> Seq<Seq<char>> {
    let (lines, cur) = layout(words(text), width);
    if cur.len() == 0 {
        lines
    } else {
        lines.push(cur)
    }
}

/// The pieces of `s` between white-space characters.
fn split_white(s: &[char]) -> (r: Vec<Vec<char>>)
    ensures
        views(r@) == split_by(s@, white()),
{
    let ghost f = white();
    let mut out: Vec<Vec<char>> = Vec::new();
    let mut cur: Vec<char> = Vec::new();
    let mut i: usize = 0;
    while i < s.len()
        invariant
            i <= s@.len(),
            f == white(),
            views(out@).push(cur@) == split_by(s@.take(i as int), f),
        decreases s.len() - i,
    {
        let c = s[i];
        let ghost prev = split_by(s@.take(i as int), f);
        assert(s@.take(i + 1).drop_last() =~= s@.take(i as int));
        assert(s@.take(i + 1).last() == c);
        if white_space(c) {
            let done = cur;
            out.push(done);
            cur = Vec::new();
            assert(views(out@) =~= prev);
        } else {
            cur.push(c);
            assert(views(out@).push(cur@) =~= prev.update(prev.len() - 1, prev.last().push(c)));
        }
        i = i + 1;
    }
    assert(s@.take(s@.len() as int) =~= s@);
    out.push(cur);
    assert(views(out@) =~= split_by(s@, f));
    out
}

/// Simple word wrap that breaks on white space: the words of `text`, in
/// order, laid out greedily in lines of at most `width` bytes.
pub fn textwrap(text: &str, width: usize) -> (r: Vec<String>)
    ensures
        r@.map_values(|l: String| l@) == wrapped(text@, width as nat),
{
    let chars = chars_of(text);
    let pieces = split_white(chars.as_slice());
    let ghost ps = views(pieces@);
    let ghost keep = |w: Seq<char>| w.len() > 0;
    let mut lines: Vec<String> = Vec::new();
    let mut current: Vec<char> = Vec::new();
    let mut current_bytes: u128 = 0;
    let mut i: usize = 0;
    assert(ps.take(0).filter(keep) =~= Seq::<Seq<char>>::empty());
    while i < pieces.len()
        invariant
            i <= pieces@.len(),
            ps == views(pieces@),
            ps == split_by(text@, white()),
            keep == (|w: Seq<char>| w.len() > 0),
            current_bytes == byte_len(current@),
            current_bytes <= 4 * current@.len(),
            (lines@.map_values(|l: String| l@), current@) == layout(
                ps.take(i as int).filter(keep),
                width as nat,
            ),
        decreases pieces.len() - i,
    {
        proof {
            reveal_with_fuel(Seq::<Seq<char>>::filter, 1);
            assert(ps.take(i + 1).drop_last() =~= ps.take(i as int));
            assert(ps.take(i + 1).last() == pieces@[i as int]@);
        }
        let word = &pieces[i];
        if word.len() > 0 {
            let word_bytes = byte_len_of(word.as_slice());
            let ghost before_lines = lines@.map_values(|l: String| l@);
            let ghost before_cur = current@;
            let ghost ws = ps.take(i + 1).filter(keep);
            assert(ws.drop_last() =~= ps.take(i as int).filter(keep));
            assert(ws.last() == word@);
            let cur_len = current.len();
            assert(current_bytes <= 4 * (usize::MAX as int));
            if cur_len == 0 {
                current = suffix_from(word.as_slice(), 0);
                assert(word@.skip(0) =~= word@);
                current_bytes = word_bytes;
            } else if current_bytes + 1 + word_bytes > width as u128 {
                let done = string_of(current.as_slice());
                lines.push(done);
                current = suffix_from(word.as_slice(), 0);
                assert(word@.skip(0) =~= word@);
                current_bytes = word_bytes;
                assert(lines@.map_values(|l: String| l@) =~= before_lines.push(before_cur));
            } else {
                current.push(' ');
                let mut k: usize = 0;
                while k < word.len()
                    invariant
                        k <= word@.len(),
                        current@ == before_cur + seq![' '] + word@.take(k as int),
                    decreases word.len() - k,
                {
                    current.push(word[k]);
                    assert(word@.take(k + 1) =~= word@.take(k as int).push(word@[k as int]));
                    assert(current@ =~= before_cur + seq![' '] + word@.take(k + 1));
                    k = k + 1;
                }
                assert(word@.take(k as int) =~= word@);
                proof {
                    lemma_byte_len_concat(before_cur + seq![' '], word@);
                    lemma_byte_len_concat(before_cur, seq![' ']);
                    assert(seq![' '].drop_last() =~= Seq::<char>::empty());
                    assert((' ' as u32) == 32);
                    assert(byte_len(Seq::<char>::empty()) == 0);
                    assert(seq![' '].last() == ' ');
                    assert(char_width(' ') == 1);
                    assert(byte_len(seq![' ']) == 1);
                    assert(byte_len(before_cur + seq![' '] + word@) == byte_len(before_cur) + 1 + byte_len(word@));
                }
                current_bytes = current_bytes + 1 + word_bytes;
                assert(current@.len() == cur_len + 1 + word@.len());
            }
        } else {
            assert(ps.take(i + 1).filter(keep) =~= ps.take(i as int).filter(keep));
        }
        i = i + 1;
    }
    assert(ps.take(i as int) =~= ps);
    if current.len() > 0 {
        let ghost before_lines = lines@.map_values(|l: String| l@);
        let last = string_of(current.as_slice());
        lines.push(last);
        assert(lines@.map_values(|l: String| l@) =~= before_lines.push(
            layout(words(text@), width as nat).1,
        ));
    }
    lines
}

/// Whether no character of `s` is white space.
pub open spec fn no_white(s: Seq<char>) -> bool {
    forall|i: int| 0 <= i < s.len() ==> !is_white_space(#[trigger] s[i])
}

/// Whether a wrapped line is well laid out: not empty, and within `width`
/// bytes unless it is a single word.
pub open spec fn line_ok(line: Seq<char>, width: nat) -> bool {
    line.len() > 0 && (byte_len(line) <= width || no_white(line))
}

proof fn lemma_split_white_pieces(s: Seq<char>)
    ensures
        forall|k: int| 0 <= k < split_by(s, white()).len() ==> no_white(#[trigger] split_by(s, white())[k]),
    decreases s.len(),
{
    crate::text::lemma_split_by_nonempty(s, white());
    if s.len() > 0 {
        lemma_split_white_pieces(s.drop_last());
        crate::text::lemma_split_by_nonempty(s.drop_last(), white());
        let prev = split_by(s.drop_last(), white());
        if !is_white_space(s.last()) {
            let last = prev.last().push(s.last());
            assert(no_white(prev[prev.len() - 1]));
            assert(no_white(last));
            assert forall|k: int| 0 <= k < split_by(s, white()).len() implies no_white(
                #[trigger] split_by(s, white())[k],
            ) by {
                if k < prev.len() - 1 {
                    assert(split_by(s, white())[k] == prev[k]);
                }
            }
        } else {
            assert forall|k: int| 0 <= k < split_by(s, white()).len() implies no_white(
                #[trigger] split_by(s, white())[k],
            ) by {
                if k < prev.len() {
                    assert(split_by(s, white())[k] == prev[k]);
                }
            }
        }
    }
}

proof fn lemma_layout_ok(ws: Seq<Seq<char>>, width: nat)
    requires
        forall|k: int| 0 <= k < ws.len() ==> (#[trigger] ws[k]).len() > 0 && no_white(ws[k]),
    ensures
        forall|k: int| 0 <= k < layout(ws, width).0.len() ==> line_ok(#[trigger] layout(ws, width).0[k], width),
        layout(ws, width).1.len() > 0 ==> line_ok(layout(ws, width).1, width),
        ws.len() > 0 ==> layout(ws, width).1.len() > 0,
    decreases ws.len(),
{
    if ws.len() > 0 {
        assert forall|k: int| 0 <= k < ws.drop_last().len() implies (#[trigger] ws.drop_last()[k]).len() > 0 && no_white(ws.drop_last()[k]) by {
            assert(ws.drop_last()[k] == ws[k]);
        }
        lemma_layout_ok(ws.drop_last(), width);
        let (lines, cur) = layout(ws.drop_last(), width);
        let w = ws.last();
        assert(w.len() > 0 && no_white(w));
        if cur.len() != 0 && byte_len(cur) + 1 + byte_len(w) > width {
            assert forall|k: int| 0 <= k < lines.push(cur).len() implies line_ok(#[trigger] lines.push(cur)[k], width) by {
                if k < lines.len() {
                    assert(lines.push(cur)[k] == lines[k]);
                }
            }
        } else if cur.len() != 0 {
            lemma_byte_len_concat(cur + seq![' '], w);
            lemma_byte_len_concat(cur, seq![' ']);
            assert(seq![' '].drop_last() =~= Seq::<char>::empty());
            assert((' ' as u32) == 32);
            assert(byte_len(Seq::<char>::empty()) == 0);
            assert(seq![' '].last() == ' ');
            assert(byte_len(seq![' ']) == 1);
        }
    }
}

/// Law: wrapping never yields an empty line, and every line fits in
/// `width` bytes unless it is a single word too long to fit.
pub proof fn law_wrapped_lines_fit(text: Seq<char>, width: nat)
    ensures
        forall|k: int| 0 <= k < wrapped(text, width).len() ==> line_ok(#[trigger] wrapped(text, width)[k], width),
{
    let keep = |w: Seq<char>| w.len() > 0;
    let ps = split_by(text, white());
    lemma_split_white_pieces(text);
    let ws = words(text);
    assert forall|k: int| 0 <= k < ws.len() implies (#[trigger] ws[k]).len() > 0 && no_white(ws[k]) by {
        ps.lemma_filter_pred(keep, k);
        assert(ws.contains(ws[k]));
        ps.lemma_filter_contains_rev(keep, ws[k]);
        assert(ps.contains(ws[k]));
        let j = choose|j: int| 0 <= j < ps.len() && ps[j] == ws[k];
        assert(no_white(ps[j]));
    }
    lemma_layout_ok(ws, width);
    let (lines, cur) = layout(ws, width);
    if cur.len() > 0 {
        assert forall|k: int| 0 <= k < lines.push(cur).len() implies line_ok(#[trigger] lines.push(cur)[k], width) by {
            if k < lines.len() {
                assert(lines.push(cur)[k] == lines[k]);
            }
        }
    }
}

} // verus!
