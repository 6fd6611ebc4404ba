//! `no-redundant-none-check`: `x is None` or `x is not None` where the
//! parameter `x` of the enclosing function is typed as not optional.

use vstd::prelude::*;
use vstd::string::StringExecFns;
use crate::diagnostic::{diag_views, Diagnostic, DiagnosticView};
use crate::rules::{Rule, Severity};
use crate::syntax::{
    field_index, innermost_of_kind, kind_index_from, last_kind_index, lemma_kind_index_from_range,
    lemma_last_kind_index_range, nodes_of, SyntaxNode,
};
use crate::text::{
    chars_are, chars_of, lemma_split_by_nonempty, one_of, split_any, split_by, string_is, trim,
    trimmed, views,
};

verus! {

broadcast use vstd::string::group_string_axioms;

/// The rule.
pub struct NoRedundantNoneCheck;

/// The characters on which a type annotation is cut into names.
pub open spec fn type_separators() -> Seq<char> {
    seq!['|', '[', ']', ',', ' ']
}

/// The part of a dotted name after its last `.` (the whole name where it
/// has no `.`).
pub open spec fn last_dotted_segment(name: Seq<char>) -> Seq<char> {
    split_by(name, one_of(seq!['.'])).last()
}

/// Whether a piece of an annotation names `None`, or `Optional` (bare or
/// qualified, as in `typing.Optional`).
pub open spec fn names_none(piece: Seq<char>) -> bool {
    trim(piece) == "None"@ || last_dotted_segment(trim(piece)) == "Optional"@
}

/// Whether the annotation `t` admits `None`: one of its pieces between
/// `|`, `[`, `]`, `,` and spaces is, once trimmed, `None`, or `Optional`
/// after its last `.`.
pub open spec fn admits_none(t: Seq<char>) -> bool {
    exists|i: int|
        0 <= i < split_by(t, one_of(type_separators())).len() && names_none(
            #[trigger] split_by(t, one_of(type_separators()))[i],
        )
}

/// The part of the dotted name `name` after its last `.`.
fn dotted_tail(name: &[char]) -> (r: Vec<char>)
    ensures
        r@ == last_dotted_segment(name@),
{
    let dot = ['.'];
    assert(dot@ =~= seq!['.']);
    let parts = split_any(name, &dot);
    proof {
        lemma_split_by_nonempty(name@, one_of(seq!['.']));
    }
    let last = parts.len() - 1;
    assert(parts@[last as int]@ == views(parts@)[last as int]);
    parts[last].clone()
}

/// Whether the annotation `type_text` admits `None`: it names `None`, or
/// `Optional` (bare or after a `.`), as a whole word among `|`, `[`, `]`,
/// `,` and spaces.
pub fn type_includes_none(type_text: &str) -> (r: bool)
    ensures
        r == admits_none(type_text@),
{
    let t = chars_of(type_text);
    let seps = ['|', '[', ']', ',', ' '];
    assert(seps@ =~= type_separators());
    let pieces = split_any(t.as_slice(), &seps);
    let ghost all = split_by(t@, one_of(type_separators()));
    let mut i: usize = 0;
    while i < pieces.len()
        invariant
            i <= pieces@.len(),
            views(pieces@) == all,
            all == split_by(type_text@, one_of(type_separators())),
            forall|j: int| 0 <= j < i ==> !names_none(#[trigger] all[j]),
        decreases pieces.len() - i,
    {
        let token = trimmed(pieces[i].as_slice());
        assert(all[i as int] == pieces@[i as int]@);
        let tail = dotted_tail(token.as_slice());
        if chars_are(token.as_slice(), "None") || chars_are(tail.as_slice(), "Optional") {
            assert(names_none(all[i as int]));
            return true;
        }
        i = i + 1;
    }
    false
}

/// The identifier that `node` compares with `None` by `is` or `is not`:
/// three children, an identifier, the operator, and `None`.
pub open spec fn none_comparison_ident(node: SyntaxNode) -> Option<Seq<char>> {
    let cs = node.children@;
    if cs.len() == 3 && (cs[1].text@ == "is"@ || cs[1].text@ == "is not"@) && cs[2].kind@
        == "none"@ && cs[0].kind@ == "identifier"@ {
        Some(cs[0].text@)
    } else {
        None
    }
}

/// The text of the last child of `n` of kind `kind`, if there is one.
pub open spec fn last_child_text(n: SyntaxNode, kind: Seq<char>) -> Option<Seq<char>> {
    let i = last_kind_index(n.children@, kind);
    if i >= 0 {
        Some(n.children@[i].text@)
    } else {
        None
    }
}

/// The annotation of the parameter `name` among the parameter nodes
/// `cs[from..]`: the first typed parameter (with or without default) of that
/// name decides. A `typed_default_parameter` whose name or type field is
/// missing is passed over; a `typed_parameter` is named by its first
/// identifier and typed by its last `type` child, if any.
pub open spec fn param_type_from(cs: Seq<SyntaxNode>, name: Seq<char>, from: int) -> Option<
    Seq<char>,
>
    decreases cs.len() - from,
{
    if from < 0 || from >= cs.len() {
        None
    } else {
        let c = cs[from];
        if c.kind@ == "typed_default_parameter"@ {
            let ni = field_index(c, "name"@);
            let ti = field_index(c, "type"@);
            if ni >= 0 && c.children@[ni].text@ == name && ti >= 0 {
                Some(c.children@[ti].text@)
            } else {
                param_type_from(cs, name, from + 1)
            }
        } else if c.kind@ == "typed_parameter"@ {
            let ni = kind_index_from(c.children@, "identifier"@, 0);
            if ni >= 0 && c.children@[ni].text@ == name {
                last_child_text(c, "type"@)
            } else {
                param_type_from(cs, name, from + 1)
            }
        } else {
            param_type_from(cs, name, from + 1)
        }
    }
}

/// The annotation of the parameter `name` in the parameter list `params`.
pub open spec fn param_type(params: SyntaxNode, name: Seq<char>) -> Option<Seq<char>> {
    param_type_from(params.children@, name, 0)
}

/// The message for a redundant check on `name`, typed as `t`.
pub open spec fn redundant_message(name: Seq<char>, t: Seq<char>) -> Seq<char> {
    "Redundant `None` check on `"@ + name + "` which is typed as `"@ + t + "` (not optional)"@
}

/// The annotation of the parameter that `node` compares with `None`, where
/// the comparison stands in a function whose parameter list types it.
pub open spec fn checked_param_type(node: SyntaxNode, ancestors: Seq<SyntaxNode>) -> Option<
    Seq<char>,
> {
    match none_comparison_ident(node) {
        Some(name) => {
            let fi = last_kind_index(ancestors, "function_definition"@);
            if fi >= 0 {
                let func = ancestors[fi];
                let pi = field_index(func, "parameters"@);
                if pi >= 0 {
                    param_type(func.children@[pi], name)
                } else {
                    None
                }
            } else {
                None
            }
        },
        None => None,
    }
}

/// The findings of the rule for `node`: one, where `node` is `x is None`
/// or `x is not None` inside a function whose parameter `x` is annotated
/// with a type that neither admits `None` nor is `Any`.
pub open spec fn redundant_none_findings(node: SyntaxNode, ancestors: Seq<SyntaxNode>) -> Seq<
    DiagnosticView,
> {
    match (none_comparison_ident(node), checked_param_type(node, ancestors)) {
        (Some(name), Some(t)) => if admits_none(t) || t == "Any"@ {
            Seq::empty()
        } else {
            seq![
                DiagnosticView {
                    path: Seq::empty(),
                    line: node.start_row as nat + 1,
                    col: node.start_column as nat,
                    rule_id: "no-redundant-none-check"@,
                    severity: Severity::Error,
                    message: redundant_message(name, t),
                },
            ]
        },
        _ => Seq::empty(),
    }
}

/// The identifier that `node` compares with `None` by `is` or `is not`.
pub fn extract_none_comparison_ident(node: &SyntaxNode) -> (r: Option<&String>)
    ensures
        match r {
            Some(s) => none_comparison_ident(*node) == Some(s@),
            None => none_comparison_ident(*node) is None,
        },
{
    if node.children.len() != 3 {
        return None;
    }
    let first = &node.children[0];
    let operator = &node.children[1];
    let last = &node.children[2];
    if !operator.has_text("is") && !operator.has_text("is not") {
        return None;
    }
    if !last.is_kind("none") {
        return None;
    }
    if !first.is_kind("identifier") {
        return None;
    }
    Some(&first.text)
}

/// The text of the last child of `n` of kind `kind`.
fn last_child_text_of<'a>(n: &'a SyntaxNode, kind: &str) -> (r: Option<&'a String>)
    ensures
        match r {
            Some(s) => last_child_text(*n, kind@) == Some(s@),
            None => last_child_text(*n, kind@) is None,
        },
{
    let cs = &n.children;
    let mut i: usize = cs.len();
    assert(cs@.take(i as int) =~= cs@);
    while i > 0
        invariant
            i <= cs@.len(),
            cs@ == n.children@,
            last_kind_index(cs@, kind@) == last_kind_index(cs@.take(i as int), kind@),
        decreases i,
    {
        assert(cs@.take(i as int).drop_last() =~= cs@.take(i - 1));
        if cs[i - 1].is_kind(kind) {
            return Some(&cs[i - 1].text);
        }
        i = i - 1;
    }
    None
}

/// The annotation of the parameter `name` in the parameter list `params`.
pub fn find_param_type<'a>(params: &'a SyntaxNode, name: &String) -> (r: Option<&'a String>)
    ensures
        match r {
            Some(s) => param_type(*params, name@) == Some(s@),
            None => param_type(*params, name@) is None,
        },
{
    let cs = &params.children;
    let mut i: usize = 0;
    while i < cs.len()
        invariant
            i <= cs@.len(),
            cs@ == params.children@,
            param_type(*params, name@) == param_type_from(cs@, name@, i as int),
        decreases cs.len() - i,
    {
        let child = &cs[i];
        if child.is_kind("typed_default_parameter") {
            if let Some(pname) = child.child_by_field_name("name") {
                if pname.text == *name {
                    if let Some(tnode) = child.child_by_field_name("type") {
                        return Some(&tnode.text);
                    }
                }
            }
        } else if child.is_kind("typed_parameter") {
            proof {
                lemma_kind_index_from_range(child.children@, "identifier"@, 0);
            }
            let param_name = match child.kind_child_index("identifier", 0) {
                Some(j) => Some(&child.children[j].text),
                None => None,
            };
            let matches = match param_name {
                Some(p) => *p == *name,
                None => false,
            };
            if matches {
                return last_child_text_of(child, "type");
            }
        }
        i = i + 1;
    }
    None
}

impl Rule for NoRedundantNoneCheck {
    open spec fn findings(&self, node: SyntaxNode, ancestors: Seq<SyntaxNode>) -> Seq<
        DiagnosticView,
    > {
        redundant_none_findings(node, ancestors)
    }

    fn name(&self) -> (r: &'static str)
        ensures
            r@ == "no-redundant-none-check"@,
    {
        "no-redundant-none-check"
    }

    fn severity(&self) -> (r: Severity)
        ensures
            r == Severity::Warning,
    {
        Severity::Warning
    }

    fn node_kinds(&self) -> (r: &'static [&'static str])
        ensures
            r@.len() == 1 && r@[0]@ == "comparison_operator"@,
    {
        &["comparison_operator"]
    }

    fn check(&self, node: &SyntaxNode, ancestors: &[&SyntaxNode], diagnostics: &mut Vec<Diagnostic>) {
        let ident_name = match extract_none_comparison_ident(node) {
            Some(n) => n,
            None => return,
        };
        proof {
            lemma_last_kind_index_range(nodes_of(ancestors@), "function_definition"@);
        }
        let func_node = match innermost_of_kind(ancestors, "function_definition") {
            Some(i) => ancestors[i],
            None => return,
        };
        let params = match func_node.child_by_field_name("parameters") {
            Some(p) => p,
            None => return,
        };
        let type_text = match find_param_type(params, ident_name) {
            Some(t) => t,
            None => return,
        };
        if type_includes_none(type_text.as_str()) || string_is(type_text, "Any") {
            return;
        }
        let mut message = "Redundant `None` check on `".to_owned();
        message.append(ident_name.as_str());
        message.append("` which is typed as `");
        message.append(type_text.as_str());
        message.append("` (not optional)");
        let d = Diagnostic {
            path: String::new(),
            line: node.start_row + 1,
            col: node.start_column,
            rule_id: "no-redundant-none-check",
            severity: Severity::Error,
            message,
        };
        let ghost before = diagnostics@;
        diagnostics.push(d);
        assert(diag_views(diagnostics@) =~= diag_views(before) + self.findings(*node, nodes_of(ancestors@)));
    }
}

/// Law: only an `is` / `is not` comparison of a name with `None` is
/// reported, only inside a function whose parameter of that name is
/// annotated, and never where the annotation admits `None` or is `Any`; a
/// reported comparison gets one finding.
pub proof fn law_only_non_optional_parameters_flagged(node: SyntaxNode, ancestors: Seq<SyntaxNode>)
    ensures
        redundant_none_findings(node, ancestors).len() <= 1,
        redundant_none_findings(node, ancestors).len() == 1 ==> {
            &&& none_comparison_ident(node) is Some
            &&& checked_param_type(node, ancestors) matches Some(t) && !admits_none(t) && t
                != "Any"@
        },
{
}

/// Whether the parameter node `c` is a typed parameter named `name`: a
/// `typed_default_parameter` whose `name` field is `name`, or a
/// `typed_parameter` whose first identifier is `name`.
pub open spec fn declares_param(c: SyntaxNode, name: Seq<char>) -> bool {
    ||| (c.kind@ == "typed_default_parameter"@ && field_index(c, "name"@) >= 0
        && c.children@[field_index(c, "name"@)].text@ == name)
    ||| (c.kind@ == "typed_parameter"@ && kind_index_from(c.children@, "identifier"@, 0) >= 0
        && c.children@[kind_index_from(c.children@, "identifier"@, 0)].text@ == name)
}

proof fn lemma_skip_undeclared(cs: Seq<SyntaxNode>, name: Seq<char>, from: int, k: int)
    requires
        0 <= from <= k < cs.len(),
        forall|j: int| from <= j < k ==> !declares_param(#[trigger] cs[j], name),
    ensures
        param_type_from(cs, name, from) == param_type_from(cs, name, k),
    decreases k - from,
{
    if from < k {
        assert(!declares_param(cs[from], name));
        lemma_skip_undeclared(cs, name, from + 1, k);
    }
}

/// Law: the annotation looked up for a parameter is that of the first typed
/// parameter of that name, wherever it stands and whatever parameters
/// (typed, untyped or of other names) come before it: its last `type`
/// child for a `typed_parameter`, its `type` field for a
/// `typed_default_parameter`.
pub proof fn law_first_declaration_decides(params: SyntaxNode, name: Seq<char>, k: int)
    requires
        0 <= k < params.children@.len(),
        declares_param(params.children@[k], name),
        forall|j: int| 0 <= j < k ==> !declares_param(#[trigger] params.children@[j], name),
    ensures
        params.children@[k].kind@ == "typed_parameter"@ ==> param_type(params, name)
            == last_child_text(params.children@[k], "type"@),
        params.children@[k].kind@ == "typed_default_parameter"@ && field_index(
            params.children@[k],
            "type"@,
        ) >= 0 ==> param_type(params, name) == Some(
            params.children@[k].children@[field_index(params.children@[k], "type"@)].text@,
        ),
{
    reveal_strlit("typed_parameter");
    reveal_strlit("typed_default_parameter");
    assert("typed_parameter"@.len() != "typed_default_parameter"@.len());
    lemma_skip_undeclared(params.children@, name, 0, k);
}

} // verus!
