use slopcop::config::Config;
use slopcop::diagnostic::Diagnostic;
use slopcop::engine::lint_source_with_config;
use slopcop::rules::no_redundant_none_check::type_includes_none;

fn lint_with_rule(source: &str, rule_id: &str) -> Vec<Diagnostic> {
    lint_source_with_config(source, "<test>", &Config::default())
        .unwrap()
        .into_iter()
        .filter(|d| d.rule_id == rule_id)
        .collect()
}

// -- Should flag: non-optional param checked against None --

#[test]
fn is_none_on_str_param() {
    let source = "def f(x: str):\n    if x is None:\n        pass";
    let d = lint_with_rule(source, "no-redundant-none-check");
    assert_eq!(d.len(), 1);
    assert_eq!(d[0].line, 2);
}

#[test]
fn is_not_none_on_str_param() {
    let source = "def f(x: str):\n    if x is not None:\n        pass";
    let d = lint_with_rule(source, "no-redundant-none-check");
    assert_eq!(d.len(), 1);
}

#[test]
fn is_none_on_int_param() {
    let source = "def f(count: int):\n    if count is None:\n        pass";
    let d = lint_with_rule(source, "no-redundant-none-check");
    assert_eq!(d.len(), 1);
}

#[test]
fn is_none_on_uuid_param() {
    let source = "def f(task_id: uuid.UUID):\n    if task_id is None:\n        pass";
    let d = lint_with_rule(source, "no-redundant-none-check");
    assert_eq!(d.len(), 1);
}

#[test]
fn is_none_on_typed_default_param() {
    let source = "def f(x: str = \"hello\"):\n    if x is None:\n        pass";
    let d = lint_with_rule(source, "no-redundant-none-check");
    assert_eq!(d.len(), 1);
}

// -- Should NOT flag: optional / nullable params --

#[test]
fn optional_union_none() {
    let source = "def f(x: str | None):\n    if x is None:\n        pass";
    let d = lint_with_rule(source, "no-redundant-none-check");
    assert_eq!(d.len(), 0);
}

#[test]
fn optional_none_first() {
    let source = "def f(x: None | str):\n    if x is None:\n        pass";
    let d = lint_with_rule(source, "no-redundant-none-check");
    assert_eq!(d.len(), 0);
}

#[test]
fn optional_typing() {
    let source = "def f(x: Optional[str]):\n    if x is None:\n        pass";
    let d = lint_with_rule(source, "no-redundant-none-check");
    assert_eq!(d.len(), 0);
}

#[test]
fn none_default_value() {
    let source = "def f(x: str | None = None):\n    if x is None:\n        pass";
    let d = lint_with_rule(source, "no-redundant-none-check");
    assert_eq!(d.len(), 0);
}

// -- Should NOT flag: untyped or non-param --

#[test]
fn untyped_param() {
    let source = "def f(x):\n    if x is None:\n        pass";
    let d = lint_with_rule(source, "no-redundant-none-check");
    assert_eq!(d.len(), 0);
}

#[test]
fn local_variable() {
    let source = "def f():\n    x = get_value()\n    if x is None:\n        pass";
    let d = lint_with_rule(source, "no-redundant-none-check");
    assert_eq!(d.len(), 0);
}

#[test]
fn not_in_function() {
    let source = "if x is None:\n    pass";
    let d = lint_with_rule(source, "no-redundant-none-check");
    assert_eq!(d.len(), 0);
}

// -- Should NOT flag: Any type --

#[test]
fn any_type() {
    let source = "def f(x: Any):\n    if x is None:\n        pass";
    let d = lint_with_rule(source, "no-redundant-none-check");
    assert_eq!(d.len(), 0);
}

// -- Edge cases --

#[test]
fn comparison_not_with_none() {
    let source = "def f(x: str):\n    if x is True:\n        pass";
    let d = lint_with_rule(source, "no-redundant-none-check");
    assert_eq!(d.len(), 0);
}

#[test]
fn equality_none_not_flagged() {
    // `== None` is a different smell (use `is None`), not our concern
    let source = "def f(x: str):\n    if x == None:\n        pass";
    let d = lint_with_rule(source, "no-redundant-none-check");
    assert_eq!(d.len(), 0);
}

#[test]
fn no_redundant_none_check_in_comment_ok() {
    let d = lint_with_rule("# if x is None:", "no-redundant-none-check");
    assert_eq!(d.len(), 0);
}

#[test]
fn method_param() {
    let source = "class C:\n    def m(self, x: str):\n        if x is None:\n            pass";
    let d = lint_with_rule(source, "no-redundant-none-check");
    assert_eq!(d.len(), 1);
}

#[test]
fn multiple_params_one_flagged() {
    let source = "def f(a: str, b: str | None):\n    if a is None:\n        pass\n    if b is None:\n        pass";
    let d = lint_with_rule(source, "no-redundant-none-check");
    assert_eq!(d.len(), 1);
    assert_eq!(d[0].line, 2);
}

#[test]
fn redundant_check_message_names_parameter_and_type() {
    let source = "def f(count: int):\n    if count is not None:\n        pass";
    let d = lint_with_rule(source, "no-redundant-none-check");
    assert_eq!(d.len(), 1);
    assert_eq!(
        d[0].message,
        "Redundant `None` check on `count` which is typed as `int` (not optional)"
    );
    assert_eq!(d[0].col, 7);
    assert_eq!(d[0].path, "<test>");
}

#[test]
fn innermost_function_decides() {
    let source = "def outer(x: str):\n    def inner(x: str | None):\n        if x is None:\n            pass";
    let d = lint_with_rule(source, "no-redundant-none-check");
    assert_eq!(d.len(), 0);
}

#[test]
fn optional_inside_brackets() {
    let source = "def f(x: dict[str, None]):\n    if x is None:\n        pass";
    assert_eq!(lint_with_rule(source, "no-redundant-none-check").len(), 0);
    let source = "def f(x: NoneType):\n    if x is None:\n        pass";
    assert_eq!(lint_with_rule(source, "no-redundant-none-check").len(), 1);
}

#[test]
fn type_includes_none_by_word() {
    assert!(type_includes_none("str | None"));
    assert!(type_includes_none("Optional[int]"));
    assert!(type_includes_none("Union[str,None]"));
    assert!(type_includes_none("str |\tNone"));
    assert!(!type_includes_none("NoneType"));
    assert!(!type_includes_none("MyOptional[int]"));
    assert!(!type_includes_none(""));
}

#[test]
fn qualified_optional_admits_none() {
    assert!(type_includes_none("typing.Optional[str]"));
    assert!(type_includes_none("t.Optional[int]"));
    assert!(!type_includes_none("typing.OptionalX[str]"));
    assert!(!type_includes_none("Optional.X"));
    let source = "def f(x: typing.Optional[str]):\n    if x is None:\n        pass";
    assert_eq!(lint_with_rule(source, "no-redundant-none-check").len(), 0);
}
