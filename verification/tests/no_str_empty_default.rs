use slopcop::config::Config;
use slopcop::diagnostic::Diagnostic;
use slopcop::engine::lint_source_with_config;

fn lint_with_rule(source: &str, rule_id: &str) -> Vec<Diagnostic> {
    lint_source_with_config(source, "<test>", &Config::default())
        .unwrap()
        .into_iter()
        .filter(|d| d.rule_id == rule_id)
        .collect()
}

#[test]
fn str_empty_double_quotes() {
    let source = "def f(x: str = \"\"):\n    pass";
    let d = lint_with_rule(source, "no-str-empty-default");
    assert_eq!(d.len(), 1);
    assert_eq!(d[0].line, 1);
}

#[test]
fn str_empty_single_quotes() {
    let source = "def f(x: str = ''):\n    pass";
    let d = lint_with_rule(source, "no-str-empty-default");
    assert_eq!(d.len(), 1);
}

#[test]
fn str_non_empty_ok() {
    let source = "def f(x: str = \"hello\"):\n    pass";
    let d = lint_with_rule(source, "no-str-empty-default");
    assert_eq!(d.len(), 0);
}

#[test]
fn str_none_default_ok() {
    let source = "def f(x: str | None = None):\n    pass";
    let d = lint_with_rule(source, "no-str-empty-default");
    assert_eq!(d.len(), 0);
}

#[test]
fn optional_str_empty() {
    let source = "def f(x: str | None = \"\"):\n    pass";
    let d = lint_with_rule(source, "no-str-empty-default");
    assert_eq!(d.len(), 1);
}

#[test]
fn int_default_ok() {
    let source = "def f(x: int = 0):\n    pass";
    let d = lint_with_rule(source, "no-str-empty-default");
    assert_eq!(d.len(), 0);
}

#[test]
fn untyped_empty_string_ok() {
    let source = "def f(x=\"\"):\n    pass";
    let d = lint_with_rule(source, "no-str-empty-default");
    assert_eq!(d.len(), 0);
}

#[test]
fn multiple_params_one_bad() {
    let source = "def f(a: int, b: str = \"\", c: str = \"ok\"):\n    pass";
    let d = lint_with_rule(source, "no-str-empty-default");
    assert_eq!(d.len(), 1);
}

#[test]
fn multiple_params_both_bad() {
    let source = "def f(a: str = \"\", b: str = ''):\n    pass";
    let d = lint_with_rule(source, "no-str-empty-default");
    assert_eq!(d.len(), 2);
}

#[test]
fn method_parameter() {
    let source = "class C:\n    def m(self, x: str = \"\"):\n        pass";
    let d = lint_with_rule(source, "no-str-empty-default");
    assert_eq!(d.len(), 1);
}

#[test]
fn async_function() {
    let source = "async def f(x: str = \"\"):\n    pass";
    let d = lint_with_rule(source, "no-str-empty-default");
    assert_eq!(d.len(), 1);
}

#[test]
fn no_str_empty_default_in_comment_ok() {
    let d = lint_with_rule("# def f(x: str = \"\"):", "no-str-empty-default");
    assert_eq!(d.len(), 0);
}

#[test]
fn in_string_ok() {
    let d = lint_with_rule("x = 'def f(x: str = \"\")'", "no-str-empty-default");
    assert_eq!(d.len(), 0);
}

#[test]
fn empty_triple_quoted() {
    let source = "def f(x: str = \"\"\"\"\"\"):\n    pass";
    let d = lint_with_rule(source, "no-str-empty-default");
    assert_eq!(d.len(), 1);
}

#[test]
fn list_str_type_not_flagged() {
    let source = "def f(x: list[str] = []):\n    pass";
    let d = lint_with_rule(source, "no-str-empty-default");
    assert_eq!(d.len(), 0);
}

// -- Class field (model field) detection --

#[test]
fn class_field_str_empty() {
    let source = "class C(BaseModel):\n    name: str = \"\"";
    let d = lint_with_rule(source, "no-str-empty-default");
    assert_eq!(d.len(), 1);
    assert_eq!(d[0].line, 2);
}

#[test]
fn class_field_str_non_empty_ok() {
    let source = "class C(BaseModel):\n    name: str = \"hello\"";
    let d = lint_with_rule(source, "no-str-empty-default");
    assert_eq!(d.len(), 0);
}

#[test]
fn class_field_str_no_default_ok() {
    let source = "class C(BaseModel):\n    name: str";
    let d = lint_with_rule(source, "no-str-empty-default");
    assert_eq!(d.len(), 0);
}

#[test]
fn class_field_int_default_ok() {
    let source = "class C(BaseModel):\n    count: int = 0";
    let d = lint_with_rule(source, "no-str-empty-default");
    assert_eq!(d.len(), 0);
}

#[test]
fn class_field_multiple_one_bad() {
    let source = "class C(BaseModel):\n    name: str = \"\"\n    title: str = \"ok\"\n    desc: str = ''";
    let d = lint_with_rule(source, "no-str-empty-default");
    assert_eq!(d.len(), 2);
}

#[test]
fn class_field_optional_str_empty() {
    let source = "class C(BaseModel):\n    name: str | None = \"\"";
    let d = lint_with_rule(source, "no-str-empty-default");
    assert_eq!(d.len(), 1);
}

#[test]
fn module_level_assignment_not_flagged() {
    // str = "" at module level (not in a class) should NOT be flagged
    let source = "name: str = \"\"";
    let d = lint_with_rule(source, "no-str-empty-default");
    assert_eq!(d.len(), 0);
}

// -- Findings as reported --

fn lint_at(source: &str, path: &str, config: &Config) -> Vec<Diagnostic> {
    lint_source_with_config(source, path, config).unwrap()
}

#[test]
fn finding_carries_path_severity_and_message() {
    let d = lint_at("def f(x: str = \"\"):\n    pass", "pkg/mod.py", &Config::default());
    assert_eq!(d.len(), 1);
    assert_eq!(d[0].path, "pkg/mod.py");
    assert_eq!(d[0].rule_id, "no-str-empty-default");
    assert_eq!(d[0].severity, slopcop::rules::Severity::Warning);
    assert_eq!(d[0].line, 1);
    assert_eq!(d[0].col, 6);
    assert_eq!(
        d[0].message,
        "Avoid `str = \"\"`; use `str | None = None` or make the parameter required"
    );
}

#[test]
fn field_finding_message() {
    let d = lint_at("class C:\n    name: str = ''", "m.py", &Config::default());
    assert_eq!(d.len(), 1);
    assert_eq!(d[0].line, 2);
    assert_eq!(d[0].col, 4);
    assert_eq!(
        d[0].message,
        "Avoid `str = \"\"` field default; use `str | None = None` or make the field required"
    );
}

#[test]
fn globally_excluded_rule_reports_nothing() {
    let config = Config { exclude: vec!["no-str-empty-default".to_string()], ..Config::default() };
    assert!(lint_at("def f(x: str = \"\"):\n    pass", "m.py", &config).is_empty());
}

#[test]
fn per_file_ignore_applies_only_to_matching_paths() {
    let mut config = Config::default();
    config
        .per_file_ignores
        .push(("tests/**".to_string(), vec!["no-str-empty-default".to_string()]));
    let source = "def f(x: str = \"\"):\n    pass";
    assert!(lint_at(source, "tests/test_a.py", &config).is_empty());
    assert_eq!(lint_at(source, "src/a.py", &config).len(), 1);
}

#[test]
fn findings_in_document_order() {
    let source = "def f(a: str = \"\"):\n    x: str = ''\nclass C:\n    b: str = \"\"\n    def g(self, c: str = ''):\n        pass";
    let d = lint_at(source, "m.py", &Config::default());
    let lines: Vec<usize> = d.iter().map(|d| d.line).collect();
    assert_eq!(lines, vec![1, 4, 5]);
}

#[test]
fn method_local_annotated_assignment_not_flagged() {
    let source = "class C:\n    def m(self):\n        name: str = \"\"";
    let d = lint_with_rule(source, "no-str-empty-default");
    assert_eq!(d.len(), 0);
}

#[test]
fn assignment_in_block_nested_in_class_flagged() {
    let source = "class C:\n    if flag:\n        name: str = \"\"\n    try:\n        x: str = ''\n    except E:\n        pass\n    title: str = ''";
    let d = lint_with_rule(source, "no-str-empty-default");
    let lines: Vec<usize> = d.iter().map(|d| d.line).collect();
    assert_eq!(lines, vec![3, 5, 8]);
}

#[test]
fn local_in_nested_block_of_method_not_flagged() {
    let source = "class C:\n    def m(self):\n        if flag:\n            name: str = ''";
    assert_eq!(lint_with_rule(source, "no-str-empty-default").len(), 0);
}

#[test]
fn nested_class_field_flagged() {
    let source = "def f():\n    class C:\n        name: str = ''";
    let d = lint_with_rule(source, "no-str-empty-default");
    assert_eq!(d.len(), 1);
    assert_eq!(d[0].line, 3);
}
