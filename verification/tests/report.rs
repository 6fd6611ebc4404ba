use slopcop::diagnostic::Diagnostic;
use slopcop::report::{
    count_by_severity, exit_code, group_by_rule, has_violations, in_listing_order,
    listing_order, plural_suffix, textwrap,
};
use slopcop::rules::Severity;

fn diag(path: &str, line: usize, col: usize, rule_id: &'static str, severity: Severity) -> Diagnostic {
    Diagnostic {
        path: path.to_string(),
        line,
        col,
        rule_id,
        severity,
        message: format!("{rule_id} at {line}:{col}"),
    }
}

#[test]
fn listing_sorts_by_path_line_column_and_is_stable() {
    let ds = vec![
        diag("b.py", 1, 0, "r1", Severity::Error),
        diag("a.py", 3, 2, "r1", Severity::Error),
        diag("a.py", 3, 1, "r2", Severity::Warning),
        diag("a.py", 1, 9, "r2", Severity::Warning),
        diag("a.py", 3, 1, "r1", Severity::Error),
    ];
    assert_eq!(listing_order(&ds), vec![3, 2, 4, 1, 0]);
    let listed = in_listing_order(&ds);
    let keys: Vec<(String, usize, usize, &str)> =
        listed.iter().map(|d| (d.path.clone(), d.line, d.col, d.rule_id)).collect();
    assert_eq!(
        keys,
        vec![
            ("a.py".to_string(), 1, 9, "r2"),
            ("a.py".to_string(), 3, 1, "r2"),
            ("a.py".to_string(), 3, 1, "r1"),
            ("a.py".to_string(), 3, 2, "r1"),
            ("b.py".to_string(), 1, 0, "r1"),
        ]
    );
}

#[test]
fn listing_orders_paths_as_strings_compare() {
    let ds = vec![
        diag("src/é.py", 1, 0, "r", Severity::Error),
        diag("src/z.py", 1, 0, "r", Severity::Error),
        diag("src", 1, 0, "r", Severity::Error),
        diag("Src/a.py", 1, 0, "r", Severity::Error),
    ];
    let order = listing_order(&ds);
    let mut expected: Vec<usize> = (0..ds.len()).collect();
    expected.sort_by(|&a, &b| ds[a].path.cmp(&ds[b].path));
    assert_eq!(order, expected);
}

#[test]
fn listing_of_nothing() {
    assert!(listing_order(&vec![]).is_empty());
}

#[test]
fn groups_by_rule_id_in_order() {
    let ds = vec![
        diag("a.py", 1, 0, "no-print", Severity::Warning),
        diag("a.py", 2, 0, "no-assert", Severity::Error),
        diag("b.py", 1, 0, "no-print", Severity::Error),
        diag("b.py", 5, 0, "no-assert", Severity::Error),
        diag("c.py", 5, 0, "max-function-params", Severity::Warning),
    ];
    let groups = group_by_rule(&ds);
    let summary: Vec<(&str, Severity, Vec<usize>)> =
        groups.iter().map(|g| (g.rule_id, g.severity, g.members.clone())).collect();
    assert_eq!(
        summary,
        vec![
            ("max-function-params", Severity::Warning, vec![4]),
            ("no-assert", Severity::Error, vec![1, 3]),
            ("no-print", Severity::Warning, vec![0, 2]),
        ]
    );
    assert!(group_by_rule(&vec![]).is_empty());
}

#[test]
fn counts_and_exit_status() {
    let ds = vec![
        diag("a.py", 1, 0, "x", Severity::Warning),
        diag("a.py", 2, 0, "y", Severity::Error),
        diag("a.py", 3, 0, "x", Severity::Warning),
    ];
    assert_eq!(count_by_severity(&ds), (1, 2));
    assert!(has_violations(0, 2, false));
    assert!(!has_violations(0, 2, true));
    assert!(has_violations(1, 0, true));
    assert!(!has_violations(0, 0, false));
    assert_eq!(exit_code(Some(true)), 1);
    assert_eq!(exit_code(Some(false)), 0);
    assert_eq!(exit_code(None), 2);
    assert_eq!(plural_suffix(1), "");
    assert_eq!(plural_suffix(0), "s");
    assert_eq!(plural_suffix(2), "s");
}

#[test]
fn textwrap_greedy_lines() {
    assert_eq!(textwrap("aaa bbb ccc", 7), vec!["aaa bbb".to_string(), "ccc".to_string()]);
    assert_eq!(textwrap("  aaa\n\tbbb  ", 76), vec!["aaa bbb".to_string()]);
    assert_eq!(textwrap("averyverylongword x", 4), vec!["averyverylongword".to_string(), "x".to_string()]);
    assert!(textwrap("", 10).is_empty());
    assert!(textwrap(" \n ", 10).is_empty());
    assert_eq!(textwrap("a b", 3), vec!["a b".to_string()]);
    assert_eq!(textwrap("a b", 2), vec!["a".to_string(), "b".to_string()]);
}

#[test]
fn textwrap_counts_bytes() {
    // "éé" is four bytes long: with the space, "éé x" is six bytes.
    assert_eq!(textwrap("éé x", 5), vec!["éé".to_string(), "x".to_string()]);
    assert_eq!(textwrap("éé x", 6), vec!["éé x".to_string()]);
}
