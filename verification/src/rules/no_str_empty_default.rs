//! `no-str-empty-default`: `str = ""` as a parameter default, or as the
//! default of an annotated field in a class body.

use vstd::prelude::*;
use crate::diagnostic::{diag_views, Diagnostic, DiagnosticView};
use crate::rules::{Rule, Severity};
use crate::syntax::{
    field_index, innermost_of_kind, kind_index_from, last_kind_index, lemma_kind_index_from_range,
    nodes_of, SyntaxNode,
};

verus! {

broadcast use vstd::string::group_string_axioms;

/// The rule.
pub struct NoStrEmptyDefault;

/// Whether the type expression `n` is `str` or a `|` union that has `str`
/// as a member at some depth.
pub open spec fn type_expr_has_str(n: SyntaxNode) -> bool
    decreases n,
{
    if n.kind@ == "identifier"@ {
        n.text@ == "str"@
    } else if n.kind@ == "binary_operator"@ {
        let li = field_index(n, "left"@);
        let ri = field_index(n, "right"@);
        ||| (0 <= li < n.children@.len() && type_expr_has_str(n.children@[li]))
        ||| (0 <= ri < n.children@.len() && type_expr_has_str(n.children@[ri]))
    } else {
        false
    }
}

/// Whether the annotation node `t` is, or directly holds, `str`.
pub open spec fn annotation_has_str(t: SyntaxNode) -> bool {
    exists|i: int| 0 <= i < t.children@.len() && type_expr_has_str(#[trigger] t.children@[i])
}

/// Whether `n` is an empty string literal: a `string` with no content.
pub open spec fn is_empty_string_literal(n: SyntaxNode) -> bool {
    n.kind@ == "string"@ && forall|i: int|
        0 <= i < n.children@.len() ==> (#[trigger] n.children@[i]).kind@ != "string_content"@
}

/// The message for a parameter default.
pub open spec fn param_message() -> Seq<char> {
    "Avoid `str = \"\"`; use `str | None = None` or make the parameter required"@
}

/// The message for a field default.
pub open spec fn field_message() -> Seq<char> {
    "Avoid `str = \"\"` field default; use `str | None = None` or make the field required"@
}

/// A finding of this rule at `node` with `message`.
pub open spec fn finding_at(node: SyntaxNode, message: Seq<char>) -> DiagnosticView {
    DiagnosticView {
        path: Seq::empty(),
        line: node.start_row as nat + 1,
        col: node.start_column as nat,
        rule_id: "no-str-empty-default"@,
        severity: Severity::Error,
        message,
    }
}

/// Whether a parameter with a default is annotated with `str` and defaults
/// to an empty string.
pub open spec fn param_defaults_to_empty_str(node: SyntaxNode) -> bool {
    let ti = field_index(node, "type"@);
    let vi = field_index(node, "value"@);
    &&& 0 <= ti < node.children@.len()
    &&& annotation_has_str(node.children@[ti])
    &&& 0 <= vi < node.children@.len()
    &&& is_empty_string_literal(node.children@[vi])
}

/// Whether a statement with ancestors `ancestors` (the root first) stands
/// in a class body, nested blocks of it included, and not in a function or
/// method: it has a `class_definition` ancestor, and no
/// `function_definition` stands between the innermost one and it.
pub open spec fn in_class_body(ancestors: Seq<SyntaxNode>) -> bool {
    let c = last_kind_index(ancestors, "class_definition"@);
    c >= 0 && last_kind_index(ancestors, "function_definition"@) < c
}

/// Whether an assignment standing in a class body (a model field)
/// is annotated with `str` and gives an empty string: its first `type`
/// child holds `str`, and its first `string` child after its first `=` is
/// empty.
pub open spec fn field_defaults_to_empty_str(node: SyntaxNode, ancestors: Seq<SyntaxNode>) -> bool {
    let cs = node.children@;
    let ti = kind_index_from(cs, "type"@, 0);
    let ei = kind_index_from(cs, "="@, 0);
    let vi = kind_index_from(cs, "string"@, ei + 1);
    &&& in_class_body(ancestors)
    &&& 0 <= ti < cs.len()
    &&& annotation_has_str(cs[ti])
    &&& ei >= 0
    &&& 0 <= vi < cs.len()
    &&& is_empty_string_literal(cs[vi])
}

/// The findings of the rule for `node`.
pub open spec fn empty_default_findings(node: SyntaxNode, ancestors: Seq<SyntaxNode>) -> Seq<
    DiagnosticView,
> {
    if node.kind@ == "typed_default_parameter"@ && param_defaults_to_empty_str(node) {
        seq![finding_at(node, param_message())]
    } else if node.kind@ == "assignment"@ && field_defaults_to_empty_str(node, ancestors) {
        seq![finding_at(node, field_message())]
    } else {
        Seq::empty()
    }
}

/// Whether the type expression `node` is `str`, or a `|` union with `str`
/// among its members.
pub fn check_type_expr(node: &SyntaxNode) -> (r: bool)
    ensures
        r == type_expr_has_str(*node),
    decreases node,
{
    if node.is_kind("identifier") {
        node.has_text("str")
    } else if node.is_kind("binary_operator") {
        if let Some(i) = node.field_child_index("left") {
            if check_type_expr(&node.children[i]) {
                return true;
            }
        }
        if let Some(i) = node.field_child_index("right") {
            if check_type_expr(&node.children[i]) {
                return true;
            }
        }
        false
    } else {
        false
    }
}

/// Whether the annotation `type_node` is, or directly holds, `str`.
pub fn type_contains_str(type_node: &SyntaxNode) -> (r: bool)
    ensures
        r == annotation_has_str(*type_node),
{
    let mut i: usize = 0;
    while i < type_node.children.len()
        invariant
            i <= type_node.children@.len(),
            forall|j: int| 0 <= j < i ==> !type_expr_has_str(#[trigger] type_node.children@[j]),
        decreases type_node.children.len() - i,
    {
        if check_type_expr(&type_node.children[i]) {
            return true;
        }
        i = i + 1;
    }
    false
}

/// Whether `node` is an empty string literal.
pub fn is_empty_string(node: &SyntaxNode) -> (r: bool)
    ensures
        r == is_empty_string_literal(*node),
{
    if !node.is_kind("string") {
        return false;
    }
    let mut i: usize = 0;
    while i < node.children.len()
        invariant
            i <= node.children@.len(),
            forall|j: int| 0 <= j < i ==> (#[trigger] node.children@[j]).kind@ != "string_content"@,
        decreases node.children.len() - i,
    {
        if node.children[i].is_kind("string_content") {
            return false;
        }
        i = i + 1;
    }
    true
}

fn finding(node: &SyntaxNode, message: String) -> (d: Diagnostic)
    requires
        node.start_row < usize::MAX,
    ensures
        d@ == finding_at(*node, message@),
{
    Diagnostic {
        path: String::new(),
        line: node.start_row + 1,
        col: node.start_column,
        rule_id: "no-str-empty-default",
        severity: Severity::Error,
        message,
    }
}

impl NoStrEmptyDefault {
    /// Reports a parameter annotated with `str` whose default is `""`.
    pub fn check_param(&self, node: &SyntaxNode, diagnostics: &mut Vec<Diagnostic>)
        requires
            node.start_row < usize::MAX,
        ensures
            diag_views(final(diagnostics)@) == diag_views(old(diagnostics)@) + (
            if param_defaults_to_empty_str(*node) {
                seq![finding_at(*node, param_message())]
            } else {
                Seq::empty()
            }),
    {
        let ghost before = diagnostics@;
        assert(diag_views(before) + Seq::empty() =~= diag_views(before));
        let type_node = match node.child_by_field_name("type") {
            Some(t) => t,
            None => return,
        };
        if !type_contains_str(type_node) {
            return;
        }
        let value_node = match node.child_by_field_name("value") {
            Some(v) => v,
            None => return,
        };
        if !is_empty_string(value_node) {
            return;
        }
        let message = "Avoid `str = \"\"`; use `str | None = None` or make the parameter required".to_owned();
        diagnostics.push(finding(node, message));
        assert(diag_views(diagnostics@) =~= diag_views(before) + seq![
            finding_at(*node, param_message()),
        ]);
    }

    /// Reports an annotated assignment in a class body whose type holds
    /// `str` and whose value is `""`.
    pub fn check_assignment(
        &self,
        node: &SyntaxNode,
        ancestors: &[&SyntaxNode],
        diagnostics: &mut Vec<Diagnostic>,
    )
        requires
            node.start_row < usize::MAX,
        ensures
            diag_views(final(diagnostics)@) == diag_views(old(diagnostics)@) + (
            if field_defaults_to_empty_str(*node, nodes_of(ancestors@)) {
                seq![finding_at(*node, field_message())]
            } else {
                Seq::empty()
            }),
    {
        let ghost before = diagnostics@;
        assert(diag_views(before) + Seq::empty() =~= diag_views(before));
        let in_class = match innermost_of_kind(ancestors, "class_definition") {
            Some(c) => match innermost_of_kind(ancestors, "function_definition") {
                Some(f) => f < c,
                None => true,
            },
            None => false,
        };
        if !in_class {
            return;
        }
        let ghost cs = node.children@;
        let mut type_node: Option<usize> = None;
        let mut value_node: Option<usize> = None;
        let mut found_eq = false;
        let mut i: usize = 0;
        while i < node.children.len()
            invariant
                i <= cs.len(),
                cs == node.children@,
                type_node == (if 0 <= kind_index_from(cs, "type"@, 0) < i {
                    Some(kind_index_from(cs, "type"@, 0) as usize)
                } else {
                    None::<usize>
                }),
                found_eq == (0 <= kind_index_from(cs, "="@, 0) < i),
                !found_eq ==> value_node is None,
                found_eq ==> value_node == (if 0 <= kind_index_from(
                    cs,
                    "string"@,
                    kind_index_from(cs, "="@, 0) + 1,
                ) < i {
                    Some(kind_index_from(cs, "string"@, kind_index_from(cs, "="@, 0) + 1) as usize)
                } else {
                    None::<usize>
                }),
            decreases node.children.len() - i,
        {
            let child = &node.children[i];
            proof {
                reveal_strlit("type");
                reveal_strlit("=");
                reveal_strlit("string");
                assert("type"@.len() == 4 && "="@.len() == 1 && "string"@.len() == 6);
                lemma_kind_scan(cs, "type"@, 0, i as int);
                lemma_kind_scan(cs, "="@, 0, i as int);
                if found_eq {
                    lemma_kind_scan(cs, "string"@, kind_index_from(cs, "="@, 0) + 1, i as int);
                }
            }
            if child.is_kind("type") {
                if type_node.is_none() {
                    type_node = Some(i);
                }
            } else if child.is_kind("=") {
                found_eq = true;
                proof {
                    lemma_kind_index_from_range(cs, "string"@, i + 1);
                }
            } else if child.is_kind("string") {
                if found_eq && value_node.is_none() {
                    value_node = Some(i);
                }
            }
            i = i + 1;
        }
        proof {
            lemma_kind_index_from_range(cs, "type"@, 0);
            lemma_kind_index_from_range(cs, "="@, 0);
            lemma_kind_index_from_range(cs, "string"@, kind_index_from(cs, "="@, 0) + 1);
        }
        let type_node = match type_node {
            Some(t) => &node.children[t],
            None => return,
        };
        if !type_contains_str(type_node) {
            return;
        }
        let value_node = match value_node {
            Some(v) => &node.children[v],
            None => return,
        };
        if !is_empty_string(value_node) {
            return;
        }
        let message = "Avoid `str = \"\"` field default; use `str | None = None` or make the field required".to_owned();
        diagnostics.push(finding(node, message));
        assert(diag_views(diagnostics@) =~= diag_views(before) + seq![
            finding_at(*node, field_message()),
        ]);
    }
}

/// Scanning `cs` for `kind` from `from`: index `i` is the first hit exactly
/// when no earlier index from `from` on is one.
proof fn lemma_kind_scan(cs: Seq<SyntaxNode>, kind: Seq<char>, from: int, i: int)
    requires
        0 <= from <= i < cs.len() || (from == i && i == cs.len()),
    ensures
        i < cs.len() && !(0 <= kind_index_from(cs, kind, from) < i) ==> (kind_index_from(
            cs,
            kind,
            from,
        ) == i <==> cs[i].kind@ == kind),
        !(0 <= kind_index_from(cs, kind, from) < i) ==> kind_index_from(cs, kind, from)
            == kind_index_from(cs, kind, i),
    decreases i - from,
{
    lemma_kind_index_from_range(cs, kind, from);
    if from < i {
        lemma_kind_scan(cs, kind, from + 1, i);
    }
}

impl Rule for NoStrEmptyDefault {
    open spec fn findings(&self, node: SyntaxNode, ancestors: Seq<SyntaxNode>) -> Seq<
        DiagnosticView,
    > {
        empty_default_findings(node, ancestors)
    }

    fn name(&self) -> (r: &'static str)
        ensures
            r@ == "no-str-empty-default"@,
    {
        "no-str-empty-default"
    }

    fn severity(&self) -> (r: Severity)
        ensures
            r == Severity::Warning,
    {
        Severity::Warning
    }

    fn node_kinds(&self) -> (r: &'static [&'static str])
        ensures
            r@.len() == 2 && r@[0]@ == "typed_default_parameter"@ && r@[1]@ == "assignment"@,
    {
        &["typed_default_parameter", "assignment"]
    }

    fn check(&self, node: &SyntaxNode, ancestors: &[&SyntaxNode], diagnostics: &mut Vec<Diagnostic>) {
        let ghost before = diagnostics@;
        proof {
            reveal_strlit("typed_default_parameter");
            reveal_strlit("assignment");
            assert("typed_default_parameter"@.len() != "assignment"@.len());
        }
        if node.is_kind("typed_default_parameter") {
            self.check_param(node, diagnostics);
        } else if node.is_kind("assignment") {
            self.check_assignment(node, ancestors, diagnostics);
        } else {
            assert(diag_views(before) + Seq::empty() =~= diag_views(before));
        }
    }
}

/// Law: an annotated assignment is reported only where it stands in a class
/// body (a model field, possibly inside an `if` or `try` of that body):
/// never at module level, nor in a function or method body; a node gets at
/// most one finding.
pub proof fn law_fields_only_in_class_bodies(node: SyntaxNode, ancestors: Seq<SyntaxNode>)
    ensures
        empty_default_findings(node, ancestors).len() <= 1,
        node.kind@ == "assignment"@ && empty_default_findings(node, ancestors).len() > 0
            ==> in_class_body(ancestors),
        last_kind_index(ancestors, "class_definition"@) == -1 ==> !in_class_body(ancestors),
        last_kind_index(ancestors, "function_definition"@) > last_kind_index(
            ancestors,
            "class_definition"@,
        ) ==> !in_class_body(ancestors),
{
    reveal_strlit("typed_default_parameter");
    reveal_strlit("assignment");
    assert("typed_default_parameter"@.len() != "assignment"@.len());
}

/// Law: the identifier `str` holds `str`, and a `|` union holds `str` as
/// soon as either of its operands does, at any depth: `str | None`,
/// `None | str` and `int | (None | str)` all do.
pub proof fn law_union_operand_holds_str(n: SyntaxNode)
    ensures
        n.kind@ == "identifier"@ && n.text@ == "str"@ ==> type_expr_has_str(n),
        n.kind@ == "binary_operator"@ && 0 <= field_index(n, "left"@) < n.children@.len()
            && type_expr_has_str(n.children@[field_index(n, "left"@)]) ==> type_expr_has_str(n),
        n.kind@ == "binary_operator"@ && 0 <= field_index(n, "right"@) < n.children@.len()
            && type_expr_has_str(n.children@[field_index(n, "right"@)]) ==> type_expr_has_str(n),
{
    reveal_strlit("identifier");
    reveal_strlit("binary_operator");
    assert("identifier"@.len() != "binary_operator"@.len());
}

/// Law: a typed parameter with the default `""` is reported exactly when
/// one member of its annotation holds `str`, whichever side of a `|` it is
/// on.
pub proof fn law_param_flagged_by_any_union_member(node: SyntaxNode, i: int)
    requires
        node.kind@ == "typed_default_parameter"@,
        0 <= field_index(node, "type"@) < node.children@.len(),
        0 <= field_index(node, "value"@) < node.children@.len(),
        is_empty_string_literal(node.children@[field_index(node, "value"@)]),
        0 <= i < node.children@[field_index(node, "type"@)].children@.len(),
        type_expr_has_str(node.children@[field_index(node, "type"@)].children@[i]),
    ensures
        empty_default_findings(node, Seq::empty()).len() == 1,
{
    reveal_strlit("typed_default_parameter");
    assert(annotation_has_str(node.children@[field_index(node, "type"@)]));
}

} // verus!
