//! Running the rule set over a syntax tree: every rule that the
//! configuration does not switch off for the file looks at every node of
//! its kinds, in document order, with the node's ancestors; each finding
//! gets the file's path and its rule's severity.

use vstd::prelude::*;
use crate::config::{lemma_views_take_push, str_views, Config};
use crate::diagnostic::{diag_views, Diagnostic, DiagnosticView};
use crate::rules::{all_rules_with_config, default_rules, str_slice_views, AnyRule, Rule, Severity};
use crate::syntax::{nodes_of, SyntaxNode};
use crate::parse::{parse_python, python_tree};
use crate::suppress::{source_lines, unsilenced, without_silenced};
use crate::text::string_is;

verus! {

broadcast use vstd::string::group_string_axioms;

/// Whether every node of the tree at `node` starts on a row whose number
/// counted from 1 fits in a `usize`.
pub open spec fn rows_fit(node: SyntaxNode) -> bool
    decreases node,
{
    &&& node.start_row < usize::MAX
    &&& forall|i: int|
        0 <= i < node.children@.len() ==> rows_fit(#[trigger] node.children@[i])
}

/// The rules among `rules` that `config` does not switch off for `path`,
/// in order.
pub open spec fn active_rules(rules: Seq<AnyRule>, config: Config, path: Seq<char>) -> Seq<
    AnyRule,
>
    decreases rules.len(),
{
    if rules.len() == 0 {
        Seq::empty()
    } else {
        let prev = active_rules(rules.drop_last(), config, path);
        if config.excludes(path, rules.last().rule_name()) {
            prev
        } else {
            prev.push(rules.last())
        }
    }
}

/// `found` with every finding given the path `path` and the severity `sev`.
pub open spec fn stamped(found: Seq<DiagnosticView>, path: Seq<char>, sev: Severity) -> Seq<
    DiagnosticView,
> {
    found.map_values(
        |d: DiagnosticView|
            DiagnosticView {
                path,
                line: d.line,
                col: d.col,
                rule_id: d.rule_id,
                severity: sev,
                message: d.message,
            },
    )
}

/// The findings of `rules`, in order, at `node` with ancestors `ancestors`:
/// each rule looks only at nodes of its kinds.
pub open spec fn node_findings(
    rules: Seq<AnyRule>,
    node: SyntaxNode,
    ancestors: Seq<SyntaxNode>,
    path: Seq<char>,
) -> Seq<DiagnosticView>
    decreases rules.len(),
{
    if rules.len() == 0 {
        Seq::empty()
    } else {
        let prev = node_findings(rules.drop_last(), node, ancestors, path);
        let r = rules.last();
        if r.rule_kinds().contains(node.kind@) {
            prev + stamped(r.findings(node, ancestors), path, r.rule_severity())
        } else {
            prev
        }
    }
}

/// The findings of `rules` in the tree at `node` (whose ancestors are
/// `ancestors`): those at `node` first, then those in each child's tree in
/// order.
pub open spec fn tree_findings(
    rules: Seq<AnyRule>,
    node: SyntaxNode,
    ancestors: Seq<SyntaxNode>,
    path: Seq<char>,
) -> Seq<DiagnosticView>
    decreases node, 1int,
{
    node_findings(rules, node, ancestors, path) + forest_findings(
        rules,
        node.children@,
        ancestors.push(node),
        path,
    )
}

/// The findings of `rules` in the trees at `nodes`, in order, all with the
/// ancestors `ancestors`.
pub open spec fn forest_findings(
    rules: Seq<AnyRule>,
    nodes: Seq<SyntaxNode>,
    ancestors: Seq<SyntaxNode>,
    path: Seq<char>,
) -> Seq<DiagnosticView>
    decreases nodes, 0int,
{
    if nodes.len() == 0 {
        Seq::empty()
    } else {
        forest_findings(rules, nodes.drop_last(), ancestors, path) + tree_findings(
            rules,
            nodes.last(),
            ancestors,
            path,
        )
    }
}

/// Whether `kind` is among `kinds`.
fn kind_listed(kinds: &[&str], kind: &String) -> (r: bool)
    ensures
        r == str_slice_views(kinds@).contains(kind@),
{
    let mut i: usize = 0;
    while i < kinds.len()
        invariant
            i <= kinds@.len(),
            forall|j: int| 0 <= j < i ==> kinds@[j]@ != kind@,
        decreases kinds.len() - i,
    {
        if string_is(kind, kinds[i]) {
            assert(str_slice_views(kinds@)[i as int] == kind@);
            return true;
        }
        i = i + 1;
    }
    assert forall|j: int| 0 <= j < kinds@.len() implies str_slice_views(kinds@)[j] != kind@ by {
        assert(kinds@[j]@ != kind@);
    }
    false
}

/// Runs `rules` over the node `node` and appends their findings.
fn lint_node(
    rules: &Vec<AnyRule>,
    node: &SyntaxNode,
    ancestors: &Vec<&SyntaxNode>,
    path: &String,
    out: &mut Vec<Diagnostic>,
)
    requires
        node.start_row < usize::MAX,
    ensures
        diag_views(final(out)@) == diag_views(old(out)@) + node_findings(
            rules@,
            *node,
            nodes_of(ancestors@),
            path@,
        ),
{
    let ghost start = diag_views(out@);
    let ghost anc = nodes_of(ancestors@);
    let mut i: usize = 0;
    assert(rules@.take(0) =~= Seq::<AnyRule>::empty());
    assert(start + Seq::empty() =~= start);
    while i < rules.len()
        invariant
            i <= rules@.len(),
            node.start_row < usize::MAX,
            anc == nodes_of(ancestors@),
            diag_views(out@) == start + node_findings(rules@.take(i as int), *node, anc, path@),
        decreases rules.len() - i,
    {
        let rule = &rules[i];
        assert(rules@.take(i + 1).drop_last() =~= rules@.take(i as int));
        assert(rules@.take(i + 1).last() == *rule);
        let kinds = rule.node_kinds();
        if kind_listed(kinds, &node.kind) {
            let mut found: Vec<Diagnostic> = Vec::new();
            rule.check(node, ancestors.as_slice(), &mut found);
            assert(diag_views(found@) =~= rule.findings(*node, anc));
            let sev = rule.severity();
            let ghost before = diag_views(out@);
            let mut j: usize = 0;
            while j < found.len()
                invariant
                    j <= found@.len(),
                    diag_views(out@) == before + stamped(
                        diag_views(found@).take(j as int),
                        path@,
                        sev,
                    ),
                decreases found.len() - j,
            {
                let d = &found[j];
                let stamped_d = Diagnostic {
                    path: path.clone(),
                    line: d.line,
                    col: d.col,
                    rule_id: d.rule_id,
                    severity: sev,
                    message: d.message.clone(),
                };
                let ghost prev = diag_views(out@);
                out.push(stamped_d);
                assert(diag_views(out@) =~= prev.push(stamped_d@));
                assert(stamped(diag_views(found@).take(j + 1), path@, sev) =~= stamped(
                    diag_views(found@).take(j as int),
                    path@,
                    sev,
                ).push(stamped_d@));
                j = j + 1;
            }
            assert(diag_views(found@).take(found@.len() as int) =~= diag_views(found@));
            assert(diag_views(out@) =~= start + node_findings(
                rules@.take(i + 1),
                *node,
                anc,
                path@,
            ));
        }
        i = i + 1;
    }
    assert(rules@.take(rules@.len() as int) =~= rules@);
}

/// Runs `rules` over the tree at `node`, whose ancestors are `ancestors`,
/// and appends their findings.
fn lint_subtree<'a>(
    rules: &Vec<AnyRule>,
    node: &'a SyntaxNode,
    ancestors: &mut Vec<&'a SyntaxNode>,
    path: &String,
    out: &mut Vec<Diagnostic>,
)
    requires
        rows_fit(*node),
    ensures
        final(ancestors)@ == old(ancestors)@,
        diag_views(final(out)@) == diag_views(old(out)@) + tree_findings(
            rules@,
            *node,
            nodes_of(old(ancestors)@),
            path@,
        ),
    decreases node,
{
    let ghost anc = nodes_of(ancestors@);
    let ghost anc0 = ancestors@;
    let ghost start = diag_views(out@);
    lint_node(rules, node, ancestors, path, out);
    let ghost after_node = diag_views(out@);
    ancestors.push(node);
    assert(nodes_of(ancestors@) =~= anc.push(*node));
    let mut i: usize = 0;
    assert(node.children@.take(0) =~= Seq::<SyntaxNode>::empty());
    assert(after_node + Seq::empty() =~= after_node);
    while i < node.children.len()
        invariant
            i <= node.children@.len(),
            rows_fit(*node),
            ancestors@ == anc0.push(node),
            nodes_of(ancestors@) == anc.push(*node),
            diag_views(out@) == after_node + forest_findings(
                rules@,
                node.children@.take(i as int),
                anc.push(*node),
                path@,
            ),
        decreases node.children.len() - i,
    {
        let child = &node.children[i];
        assert(rows_fit(*child));
        assert(node.children@.take(i + 1).drop_last() =~= node.children@.take(i as int));
        assert(node.children@.take(i + 1).last() == *child);
        let ghost prev = diag_views(out@);
        lint_subtree(rules, child, ancestors, path, out);
        assert(diag_views(out@) =~= after_node + forest_findings(
            rules@,
            node.children@.take(i + 1),
            anc.push(*node),
            path@,
        ));
        i = i + 1;
    }
    assert(node.children@.take(node.children@.len() as int) =~= node.children@);
    ancestors.pop();
    assert(ancestors@ =~= anc0);
    assert(diag_views(out@) =~= start + tree_findings(rules@, *node, anc, path@));
}

/// The rules of `rules` whose ids are not among `excluded`.
fn without_excluded(rules: Vec<AnyRule>, excluded: &Vec<String>) -> (r: Vec<AnyRule>)
    ensures
        r@ == rules@.filter(|x: AnyRule| !str_views(excluded@).contains(x.rule_name())),
{
    let mut out: Vec<AnyRule> = Vec::new();
    let ghost keep = |x: AnyRule| !str_views(excluded@).contains(x.rule_name());
    let mut i: usize = 0;
    let mut rest = rules;
    let ghost all = rest@;
    let total = rest.len();
    assert(all.len() == total);
    assert(all.take(0).filter(keep) =~= Seq::<AnyRule>::empty());
    while rest.len() > 0
        invariant
            i + rest@.len() == all.len(),
            all.len() <= usize::MAX,
            rest@ == all.skip(i as int),
            out@ == all.take(i as int).filter(keep),
            keep == (|x: AnyRule| !str_views(excluded@).contains(x.rule_name())),
        decreases rest.len(),
    {
        let rule = rest.remove(0);
        assert(all.take(i + 1).drop_last() =~= all.take(i as int));
        assert(rest@ =~= all.skip(i + 1));
        let name = rule.name();
        let mut hit = false;
        let mut j: usize = 0;
        while j < excluded.len()
            invariant
                j <= excluded@.len(),
                name@ == rule.rule_name(),
                hit == str_views(excluded@.take(j as int)).contains(name@),
            decreases excluded.len() - j,
        {
            proof {
                lemma_views_take_push(excluded@, j as int, name@);
            }
            if string_is(&excluded[j], name) {
                hit = true;
            }
            j = j + 1;
        }
        assert(excluded@.take(j as int) =~= excluded@);
        proof {
            reveal_with_fuel(Seq::<AnyRule>::filter, 1);
            assert(keep(rule) == !hit);
        }
        if !hit {
            out.push(rule);
        }
        i = i + 1;
    }
    assert(all.take(i as int) =~= all);
    out
}

proof fn lemma_active_rules(rules: Seq<AnyRule>, config: Config, path: Seq<char>, excluded: Seq<Seq<char>>)
    requires
        forall|rule: Seq<char>| excluded.contains(rule) <==> config.excludes(path, rule),
    ensures
        rules.filter(|x: AnyRule| !excluded.contains(x.rule_name())) == active_rules(
            rules,
            config,
            path,
        ),
    decreases rules.len(),
{
    reveal_with_fuel(Seq::<AnyRule>::filter, 1);
    if rules.len() > 0 {
        lemma_active_rules(rules.drop_last(), config, path, excluded);
    }
}

/// The findings of the default rule set in the syntax tree `root` of the
/// file at `path`: every rule that `config` does not switch off for `path`
/// looks at every node of its kinds, in document order (a node before its
/// children, children in order; rules in their order at each node), with
/// the node's ancestors; each finding carries `path` and the severity of
/// its rule.
pub fn lint_tree(root: &SyntaxNode, path: &str, config: &Config) -> (r: Vec<Diagnostic>)
    requires
        rows_fit(*root),
    ensures
        diag_views(r@) == tree_findings(
            active_rules(default_rules(), *config, path@),
            *root,
            Seq::empty(),
            path@,
        ),
{
    let excluded = config.excludes_for_path(path);
    let rules = all_rules_with_config(config);
    let rules = without_excluded(rules, &excluded);
    proof {
        lemma_active_rules(default_rules(), *config, path@, str_views(excluded@));
    }
    let path_string = path.to_owned();
    let mut ancestors: Vec<&SyntaxNode> = Vec::new();
    let mut out: Vec<Diagnostic> = Vec::new();
    assert(nodes_of(ancestors@) =~= Seq::<SyntaxNode>::empty());
    assert(diag_views(out@) =~= Seq::<DiagnosticView>::empty());
    lint_subtree(&rules, root, &mut ancestors, &path_string, &mut out);
    assert(diag_views(out@) =~= tree_findings(rules@, *root, Seq::empty(), path@));
    out
}

/// Whether every node of the tree at `node` starts on a row whose number
/// counted from 1 fits in a `usize`.
pub fn all_rows_fit(node: &SyntaxNode) -> (r: bool)
    ensures
        r == rows_fit(*node),
    decreases node,
{
    if node.start_row == usize::MAX {
        return false;
    }
    let mut i: usize = 0;
    while i < node.children.len()
        invariant
            i <= node.children@.len(),
            forall|j: int| 0 <= j < i ==> rows_fit(#[trigger] node.children@[j]),
        decreases node.children.len() - i,
    {
        if !all_rows_fit(&node.children[i]) {
            return false;
        }
        i = i + 1;
    }
    true
}

/// The findings for the Python source `source`, whose syntax tree is
/// `root`, of the file at `path`: those of `lint_tree`, less those that a
/// suppression comment on their line silences; `None` where a row number
/// of the tree does not fit in a `usize`.
pub fn lint_parsed(root: &SyntaxNode, source: &str, path: &str, config: &Config) -> (r: Option<
    Vec<Diagnostic>,
>)
    ensures
        match r {
            Some(ds) => rows_fit(*root) && diag_views(ds@) == unsilenced(
                source_lines(source@),
                tree_findings(active_rules(default_rules(), *config, path@), *root, Seq::empty(), path@),
            ),
            None => !rows_fit(*root),
        },
{
    if !all_rows_fit(root) {
        return None;
    }
    let found = lint_tree(root, path, config);
    Some(without_silenced(source, found.as_slice()))
}

/// Parses the Python source `source` of the file at `path` and lints it
/// with the settings of `config` (see `lint_parsed`); `None` where the
/// parser gives no tree or a row number does not fit in a `usize`.
pub fn lint_source_with_config(source: &str, path: &str, config: &Config) -> (r: Option<
    Vec<Diagnostic>,
>)
    ensures
        match python_tree(source@) {
            Some(root) => if rows_fit(root) {
                r matches Some(ds) && diag_views(ds@) == unsilenced(
                    source_lines(source@),
                    tree_findings(
                        active_rules(default_rules(), *config, path@),
                        root,
                        Seq::empty(),
                        path@,
                    ),
                )
            } else {
                r is None
            },
            None => r is None,
        },
{
    match parse_python(source) {
        Some(root) => lint_parsed(&root, source, path, config),
        None => None,
    }
}

/// Whether the finding `d` carries the path `path`, the severity of the
/// rule set (every rule reports at `Severity::Warning`), and the id of a
/// rule that `config` does not switch off for `path`.
pub open spec fn well_attributed(d: DiagnosticView, config: Config, path: Seq<char>) -> bool {
    &&& d.path == path
    &&& d.severity == Severity::Warning
    &&& !config.excludes(path, d.rule_id)
}

/// Whether every finding in `ds` is well attributed.
pub open spec fn all_well_attributed(ds: Seq<DiagnosticView>, config: Config, path: Seq<char>) -> bool {
    forall|i: int| 0 <= i < ds.len() ==> well_attributed(#[trigger] ds[i], config, path)
}

/// Whether every rule of `rules` is switched on for `path` by `config`.
pub open spec fn all_active(rules: Seq<AnyRule>, config: Config, path: Seq<char>) -> bool {
    forall|i: int| 0 <= i < rules.len() ==> !config.excludes(path, (#[trigger] rules[i]).rule_name())
}

proof fn lemma_rule_ids(r: AnyRule, node: SyntaxNode, ancestors: Seq<SyntaxNode>)
    ensures
        forall|i: int|
            0 <= i < r.findings(node, ancestors).len() ==> (#[trigger] r.findings(
                node,
                ancestors,
            )[i]).rule_id == r.rule_name(),
{
}

proof fn lemma_concat_attributed(a: Seq<DiagnosticView>, b: Seq<DiagnosticView>, config: Config, path: Seq<char>)
    requires
        all_well_attributed(a, config, path),
        all_well_attributed(b, config, path),
    ensures
        all_well_attributed(a + b, config, path),
{
    assert forall|i: int| 0 <= i < (a + b).len() implies well_attributed(
        #[trigger] (a + b)[i],
        config,
        path,
    ) by {
        if i < a.len() {
            assert((a + b)[i] == a[i]);
        } else {
            assert((a + b)[i] == b[i - a.len()]);
        }
    }
}

proof fn lemma_node_attributed(
    rules: Seq<AnyRule>,
    node: SyntaxNode,
    ancestors: Seq<SyntaxNode>,
    config: Config,
    path: Seq<char>,
)
    requires
        all_active(rules, config, path),
    ensures
        all_well_attributed(node_findings(rules, node, ancestors, path), config, path),
    decreases rules.len(),
{
    if rules.len() > 0 {
        let r = rules.last();
        assert(all_active(rules.drop_last(), config, path)) by {
            assert forall|i: int| 0 <= i < rules.drop_last().len() implies !config.excludes(
                path,
                (#[trigger] rules.drop_last()[i]).rule_name(),
            ) by {
                assert(rules.drop_last()[i] == rules[i]);
            }
        }
        lemma_node_attributed(rules.drop_last(), node, ancestors, config, path);
        if r.rule_kinds().contains(node.kind@) {
            lemma_rule_ids(r, node, ancestors);
            assert(!config.excludes(path, rules[rules.len() - 1].rule_name()));
            let s = stamped(r.findings(node, ancestors), path, r.rule_severity());
            assert(all_well_attributed(s, config, path)) by {
                assert forall|i: int| 0 <= i < s.len() implies well_attributed(
                    #[trigger] s[i],
                    config,
                    path,
                ) by {
                    assert(r.findings(node, ancestors)[i].rule_id == r.rule_name());
                }
            }
            lemma_concat_attributed(
                node_findings(rules.drop_last(), node, ancestors, path),
                s,
                config,
                path,
            );
        }
    }
}

proof fn lemma_tree_attributed(
    rules: Seq<AnyRule>,
    node: SyntaxNode,
    ancestors: Seq<SyntaxNode>,
    config: Config,
    path: Seq<char>,
)
    requires
        all_active(rules, config, path),
    ensures
        all_well_attributed(tree_findings(rules, node, ancestors, path), config, path),
    decreases node, 1int,
{
    lemma_node_attributed(rules, node, ancestors, config, path);
    lemma_forest_attributed(rules, node.children@, ancestors.push(node), config, path);
    lemma_concat_attributed(
        node_findings(rules, node, ancestors, path),
        forest_findings(rules, node.children@, ancestors.push(node), path),
        config,
        path,
    );
}

proof fn lemma_forest_attributed(
    rules: Seq<AnyRule>,
    nodes: Seq<SyntaxNode>,
    ancestors: Seq<SyntaxNode>,
    config: Config,
    path: Seq<char>,
)
    requires
        all_active(rules, config, path),
    ensures
        all_well_attributed(forest_findings(rules, nodes, ancestors, path), config, path),
    decreases nodes, 0int,
{
    if nodes.len() > 0 {
        lemma_forest_attributed(rules, nodes.drop_last(), ancestors, config, path);
        lemma_tree_attributed(rules, nodes.last(), ancestors, config, path);
        lemma_concat_attributed(
            forest_findings(rules, nodes.drop_last(), ancestors, path),
            tree_findings(rules, nodes.last(), ancestors, path),
            config,
            path,
        );
    }
}

proof fn lemma_active_rules_active(rules: Seq<AnyRule>, config: Config, path: Seq<char>)
    ensures
        all_active(active_rules(rules, config, path), config, path),
        forall|r: AnyRule|
            rules.contains(r) ==> (active_rules(rules, config, path).contains(r)
                <==> !config.excludes(path, r.rule_name())),
        forall|r: AnyRule| active_rules(rules, config, path).contains(r) ==> rules.contains(r),
    decreases rules.len(),
{
    if rules.len() > 0 {
        lemma_active_rules_active(rules.drop_last(), config, path);
        let prev = active_rules(rules.drop_last(), config, path);
        let last = rules.last();
        if !config.excludes(path, last.rule_name()) {
            assert(all_active(prev.push(last), config, path)) by {
                assert forall|i: int| 0 <= i < prev.push(last).len() implies !config.excludes(
                    path,
                    (#[trigger] prev.push(last)[i]).rule_name(),
                ) by {
                    if i < prev.len() {
                        assert(prev.push(last)[i] == prev[i]);
                    }
                }
            }
        }
        assert forall|r: AnyRule| active_rules(rules, config, path).contains(r) implies rules.contains(r) by {
            if prev.contains(r) {
                assert(rules.drop_last().contains(r));
                let k = choose|k: int| 0 <= k < rules.drop_last().len() && rules.drop_last()[k] == r;
                assert(rules.drop_last()[k] == rules[k]);
            }
            if r == last {
                assert(rules[rules.len() - 1] == r);
            }
            if !config.excludes(path, last.rule_name()) && prev.push(last).contains(r) {
                let k = choose|k: int| 0 <= k < prev.push(last).len() && prev.push(last)[k] == r;
                if k < prev.len() {
                    assert(prev[k] == r);
                }
            }
        }
        assert forall|r: AnyRule| rules.contains(r) implies (active_rules(
            rules,
            config,
            path,
        ).contains(r) <==> !config.excludes(path, r.rule_name())) by {
            let i = choose|i: int| 0 <= i < rules.len() && rules[i] == r;
            if i < rules.len() - 1 {
                assert(rules.drop_last()[i] == r);
                assert(rules.drop_last().contains(r));
            } else if !rules.drop_last().contains(r) {
                assert(!prev.contains(r));
            }
            if !config.excludes(path, last.rule_name()) {
                assert(prev.push(last)[prev.len() as int] == last);
                if prev.push(last).contains(r) {
                    let k = choose|k: int| 0 <= k < prev.push(last).len() && prev.push(last)[k] == r;
                    if k < prev.len() {
                        assert(prev[k] == r);
                    }
                }
                if prev.contains(r) {
                    let k = choose|k: int| 0 <= k < prev.len() && prev[k] == r;
                    assert(prev.push(last)[k] == r);
                }
            }
        }
    }
}

/// Law: a rule is run on a file exactly when the configuration does not
/// switch it off for the file's path, globally or by a per-file pattern
/// that matches the path.
pub proof fn law_rule_runs_unless_excluded(config: Config, path: Seq<char>, rule: AnyRule)
    requires
        default_rules().contains(rule),
    ensures
        active_rules(default_rules(), config, path).contains(rule) <==> !config.excludes(
            path,
            rule.rule_name(),
        ),
{
    lemma_active_rules_active(default_rules(), config, path);
}

/// Law: every finding of a lint run carries the file's path, the severity
/// of its rule, and the id of a rule that the configuration does not switch
/// off for the file.
pub proof fn law_findings_attributed(config: Config, path: Seq<char>, root: SyntaxNode)
    ensures
        all_well_attributed(
            tree_findings(active_rules(default_rules(), config, path), root, Seq::empty(), path),
            config,
            path,
        ),
{
    lemma_active_rules_active(default_rules(), config, path);
    lemma_tree_attributed(
        active_rules(default_rules(), config, path),
        root,
        Seq::empty(),
        config,
        path,
    );
}

/// Law: a rule looks only at nodes of its kinds: a node whose kind none of
/// the rules lists (a comment, the content of a string) gets no finding.
pub proof fn law_other_kinds_unexamined(
    rules: Seq<AnyRule>,
    node: SyntaxNode,
    ancestors: Seq<SyntaxNode>,
    path: Seq<char>,
)
    requires
        forall|i: int| 0 <= i < rules.len() ==> !(#[trigger] rules[i]).rule_kinds().contains(node.kind@),
    ensures
        node_findings(rules, node, ancestors, path) == Seq::<DiagnosticView>::empty(),
    decreases rules.len(),
{
    if rules.len() > 0 {
        assert(!rules[rules.len() - 1].rule_kinds().contains(node.kind@));
        assert forall|i: int| 0 <= i < rules.drop_last().len() implies !(
        #[trigger] rules.drop_last()[i]).rule_kinds().contains(node.kind@) by {
            assert(rules.drop_last()[i] == rules[i]);
        }
        law_other_kinds_unexamined(rules.drop_last(), node, ancestors, path);
    }
}

/// Whether `small` stands in `big` as a contiguous part.
pub open spec fn is_infix(small: Seq<DiagnosticView>, big: Seq<DiagnosticView>) -> bool {
    exists|a: Seq<DiagnosticView>, b: Seq<DiagnosticView>| big == a + small + b
}

/// The node reached from `root` by following the child indices `p`, if
/// they all exist.
pub open spec fn node_at(root: SyntaxNode, p: Seq<int>) -> Option<SyntaxNode>
    decreases p.len(),
{
    if p.len() == 0 {
        Some(root)
    } else if 0 <= p[0] < root.children@.len() {
        node_at(root.children@[p[0]], p.drop_first())
    } else {
        None
    }
}

/// The nodes passed on the way from `root` along the child indices `p`,
/// `root` first, the reached node's parent last.
pub open spec fn ancestors_at(root: SyntaxNode, p: Seq<int>) -> Seq<SyntaxNode>
    decreases p.len(),
{
    if p.len() == 0 || !(0 <= p[0] < root.children@.len()) {
        Seq::empty()
    } else {
        seq![root] + ancestors_at(root.children@[p[0]], p.drop_first())
    }
}

proof fn lemma_infix_trans(
    x: Seq<DiagnosticView>,
    y: Seq<DiagnosticView>,
    z: Seq<DiagnosticView>,
)
    requires
        is_infix(x, y),
        is_infix(y, z),
    ensures
        is_infix(x, z),
{
    let (a, b) = choose|a: Seq<DiagnosticView>, b: Seq<DiagnosticView>| y == a + x + b;
    let (c, d) = choose|c: Seq<DiagnosticView>, d: Seq<DiagnosticView>| z == c + y + d;
    assert(z =~= (c + a) + x + (b + d));
}

proof fn lemma_child_in_forest(
    rules: Seq<AnyRule>,
    nodes: Seq<SyntaxNode>,
    ancestors: Seq<SyntaxNode>,
    path: Seq<char>,
    i: int,
)
    requires
        0 <= i < nodes.len(),
    ensures
        is_infix(
            tree_findings(rules, nodes[i], ancestors, path),
            forest_findings(rules, nodes, ancestors, path),
        ),
    decreases nodes.len(),
{
    let t = tree_findings(rules, nodes[i], ancestors, path);
    let f = forest_findings(rules, nodes, ancestors, path);
    let prev = forest_findings(rules, nodes.drop_last(), ancestors, path);
    let last = tree_findings(rules, nodes.last(), ancestors, path);
    if i == nodes.len() - 1 {
        assert(f =~= prev + t + Seq::<DiagnosticView>::empty());
    } else {
        lemma_child_in_forest(rules, nodes.drop_last(), ancestors, path, i);
        assert(nodes.drop_last()[i] == nodes[i]);
        let (a, b) = choose|a: Seq<DiagnosticView>, b: Seq<DiagnosticView>| prev == a + t + b;
        assert(f =~= a + t + (b + last));
    }
}

/// Law: every node of the tree is examined, whatever its kind: the
/// findings of the rules at a node reached from the root, with the nodes on
/// the way as its ancestors, stand as a contiguous part of the findings for
/// the whole tree, and so do those of the node's whole subtree.
pub proof fn law_every_node_examined(
    rules: Seq<AnyRule>,
    root: SyntaxNode,
    ancestors: Seq<SyntaxNode>,
    path: Seq<char>,
    p: Seq<int>,
)
    requires
        node_at(root, p) is Some,
    ensures
        is_infix(
            tree_findings(rules, node_at(root, p)->0, ancestors + ancestors_at(root, p), path),
            tree_findings(rules, root, ancestors, path),
        ),
        is_infix(
            node_findings(rules, node_at(root, p)->0, ancestors + ancestors_at(root, p), path),
            tree_findings(rules, root, ancestors, path),
        ),
    decreases p.len(),
{
    let n = node_at(root, p)->0;
    let anc = ancestors + ancestors_at(root, p);
    let whole = tree_findings(rules, root, ancestors, path);
    if p.len() == 0 {
        assert(anc =~= ancestors);
        assert(whole =~= Seq::<DiagnosticView>::empty() + whole + Seq::<DiagnosticView>::empty());
    } else {
        let c = root.children@[p[0]];
        let rest = p.drop_first();
        let inner = ancestors.push(root);
        law_every_node_examined(rules, c, inner, path, rest);
        assert(anc =~= inner + ancestors_at(c, rest));
        let forest = forest_findings(rules, root.children@, inner, path);
        lemma_child_in_forest(rules, root.children@, inner, path, p[0]);
        let head = node_findings(rules, root, ancestors, path);
        assert(whole == head + forest);
        assert(whole =~= head + forest + Seq::<DiagnosticView>::empty());
        lemma_infix_trans(tree_findings(rules, c, inner, path), forest, whole);
        lemma_infix_trans(tree_findings(rules, n, anc, path), tree_findings(rules, c, inner, path), whole);
    }
    let t = tree_findings(rules, n, anc, path);
    let nf = node_findings(rules, n, anc, path);
    let fo = forest_findings(rules, n.children@, anc.push(n), path);
    assert(t =~= Seq::<DiagnosticView>::empty() + nf + fo);
    lemma_infix_trans(nf, t, whole);
}

} // verus!
