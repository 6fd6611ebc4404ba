use slopcop::config::Config;
use slopcop::diagnostic::Diagnostic;
use slopcop::engine::{all_rows_fit, lint_parsed};
use slopcop::lint_source_with_config;
use slopcop::parse::parse_python;
use slopcop::rules::Severity;
use slopcop::suppress::{silences, without_silenced};
use slopcop::syntax::SyntaxNode;

fn chars(s: &str) -> Vec<char> {
    s.chars().collect()
}

fn lint(source: &str) -> Vec<Diagnostic> {
    lint_source_with_config(source, "m.py", &Config::default()).unwrap()
}

fn finding(line: usize, rule_id: &'static str) -> Diagnostic {
    Diagnostic {
        path: "m.py".to_string(),
        line,
        col: 0,
        rule_id,
        severity: Severity::Warning,
        message: String::new(),
    }
}

#[test]
fn bare_marker_silences_every_rule() {
    let line = chars("x = getattr(obj, name)                     # slopcop: ignore");
    assert!(silences(&line, "no-hasattr-getattr"));
    assert!(silences(&line, "no-print"));
    assert!(silences(&chars("x = 1  # slopcop: ignore  # why"), "no-print"));
}

#[test]
fn listed_marker_silences_listed_rules_only() {
    let one = chars("x = getattr(obj, name)  # slopcop: ignore[no-hasattr-getattr]");
    assert!(silences(&one, "no-hasattr-getattr"));
    assert!(!silences(&one, "no-print"));
    let two = chars("x = getattr(obj, name)  # slopcop: ignore[no-hasattr-getattr, no-print]");
    assert!(silences(&two, "no-hasattr-getattr"));
    assert!(silences(&two, "no-print"));
    assert!(!silences(&two, "no-assert"));
}

#[test]
fn marker_must_be_exact() {
    assert!(!silences(&chars("x = 1"), "no-print"));
    assert!(!silences(&chars("x = 1  # slopcop: ignored"), "no-print"));
    assert!(!silences(&chars("x = 1  # slopcop: ignore[no-print"), "no-print"));
    assert!(!silences(&chars("x = 1  # slopcop: ignore[]"), "no-print"));
    assert!(!silences(&chars("x = 1  # slopcop:ignore"), "no-print"));
}

#[test]
fn suppressed_finding_is_dropped_on_its_line_only() {
    let source = "def f(x: str = \"\"):  # slopcop: ignore\n    pass\ndef g(y: str = \"\"):\n    pass";
    let d = lint(source);
    assert_eq!(d.len(), 1);
    assert_eq!(d[0].line, 3);
}

#[test]
fn listed_suppression_keeps_other_rules() {
    let source = "def f(x: str = \"\"):  # slopcop: ignore[no-print]\n    pass";
    assert_eq!(lint(source).len(), 1);
    let source = "def f(x: str = \"\"):  # slopcop: ignore[no-print, no-str-empty-default]\n    pass";
    assert!(lint(source).is_empty());
}

#[test]
fn without_silenced_keeps_order_of_the_rest() {
    let source = "a\nb  # slopcop: ignore[r2]\nc  # slopcop: ignore";
    let found = vec![finding(1, "r1"), finding(2, "r1"), finding(2, "r2"), finding(3, "r1"), finding(9, "r1")];
    let kept = without_silenced(source, &found);
    let got: Vec<(usize, &str)> = kept.iter().map(|d| (d.line, d.rule_id)).collect();
    assert_eq!(got, vec![(1, "r1"), (2, "r1"), (9, "r1")]);
}

fn leaf(kind: &str, row: usize) -> SyntaxNode {
    SyntaxNode {
        kind: kind.to_string(),
        field: None,
        text: String::new(),
        start_row: row,
        start_column: 0,
        children: vec![],
    }
}

#[test]
fn rows_that_do_not_fit_are_refused() {
    let mut root = leaf("module", 0);
    root.children.push(leaf("comment", usize::MAX));
    assert!(!all_rows_fit(&root));
    assert!(lint_parsed(&root, "", "m.py", &Config::default()).is_none());
    let ok = leaf("module", 3);
    assert!(all_rows_fit(&ok));
    assert_eq!(lint_parsed(&ok, "", "m.py", &Config::default()).map(|d| d.len()), Some(0));
}

#[test]
fn parse_gives_a_module_tree() {
    let root = parse_python("x = 1\ny = 2").unwrap();
    assert_eq!(root.kind, "module");
    assert_eq!(root.children.len(), 2);
    assert_eq!(root.children[1].start_row, 1);
    assert_eq!(root.children[1].text, "y = 2");
}
