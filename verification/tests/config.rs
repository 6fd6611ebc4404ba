use slopcop::config::{
    config_from_pyproject, discover_config, glob_matches, parse_min_python_version, Config,
    DiscoverAction, DiscoverEvent, MaxFunctionParamsConfig, ProjectTable, PyprojectToml,
    RawConfig, RuleConfigs, RuleTable, SettingValue, ToolTable,
};
use slopcop::rules::{all_rules, help_for, help_texts, max_params_limit, DEFAULT_MAX_PARAMS};

fn strings(v: &[&str]) -> Vec<String> {
    v.iter().map(|s| s.to_string()).collect()
}

fn table(entries: Vec<(&str, SettingValue)>) -> Option<RuleTable> {
    Some(RuleTable { entries: entries.into_iter().map(|(k, v)| (k.to_string(), v)).collect() })
}

// -- Glob matching --

#[test]
fn test_glob_double_star_prefix() {
    assert!(glob_matches("**/test_*.py", "tests/test_foo.py"));
    assert!(glob_matches("**/test_*.py", "a/b/test_bar.py"));
    assert!(!glob_matches("**/test_*.py", "foo.py"));
}

#[test]
fn test_glob_directory_pattern() {
    assert!(glob_matches("tests/**", "tests/test_foo.py"));
    assert!(glob_matches("tests/**", "tests/sub/deep.py"));
    assert!(!glob_matches("tests/**", "src/foo.py"));
}

#[test]
fn test_glob_middle_double_star() {
    assert!(glob_matches("**/cli/**", "src/cli/main.py"));
    assert!(glob_matches("**/cli/**", "cli/commands/run.py"));
    assert!(!glob_matches("**/cli/**", "src/api/main.py"));
}

#[test]
fn test_glob_star_extension() {
    assert!(glob_matches("*.py", "foo.py"));
    assert!(!glob_matches("*.py", "dir/foo.py"));
}

#[test]
fn glob_literal_pattern_matches_only_itself() {
    assert!(glob_matches("src/main.py", "src/main.py"));
    assert!(!glob_matches("src/main.py", "src/main.pyc"));
    assert!(!glob_matches("src/main.py", "src/main.p"));
    assert!(!glob_matches("", "a"));
    assert!(glob_matches("", ""));
}

#[test]
fn glob_backslashes_read_as_slashes() {
    assert!(glob_matches("tests\\**", "tests/a.py"));
    assert!(glob_matches("tests/**", "tests\\sub\\a.py"));
    assert!(!glob_matches("*.py", "dir\\foo.py"));
}

#[test]
fn glob_double_star_alone_matches_everything() {
    assert!(glob_matches("**", ""));
    assert!(glob_matches("**", "a/b/c.py"));
    assert!(glob_matches("a**", "a/b/c"));
}

#[test]
fn glob_question_mark() {
    assert!(glob_matches("?.py", "a.py"));
    assert!(!glob_matches("?.py", "ab.py"));
    assert!(!glob_matches("a?b", "a/b"));
}

#[test]
fn glob_star_within_segment() {
    assert!(glob_matches("src/*/main.py", "src/cli/main.py"));
    assert!(!glob_matches("src/*/main.py", "src/a/b/main.py"));
    assert!(glob_matches("*", ""));
    assert!(glob_matches("a*", "a"));
}

#[test]
fn glob_leading_segments() {
    assert!(glob_matches("**/x.py", "x.py"));
    assert!(glob_matches("**/x.py", "a/b/x.py"));
    assert!(!glob_matches("**/x.py", "a/bx.py"));
}

#[test]
fn glob_non_ascii_literal() {
    assert!(glob_matches("é/**", "é/a.py"));
    assert!(glob_matches("*é", "é"));
}

#[test]
fn glob_star_matches_non_ascii_characters() {
    assert!(glob_matches("*.py", "é.py"));
    assert!(glob_matches("src/*/x.py", "src/ünï/x.py"));
    assert!(glob_matches("**/*.py", "ä/ö/ü.py"));
    assert!(!glob_matches("*.py", "é/a.py"));
}

#[test]
fn glob_separators_interchangeable() {
    assert!(glob_matches("tests\\**", "tests\\sub\\a.py"));
    assert!(glob_matches("tests/**", "tests\\sub\\a.py"));
    assert!(glob_matches("tests\\**", "tests/sub/a.py"));
    assert!(!glob_matches("src\\*.py", "src/a/b.py"));
}

// -- Python version parsing --

#[test]
fn test_parse_min_python_version() {
    assert_eq!(parse_min_python_version(">=3.10"), Some((3, 10)));
    assert_eq!(parse_min_python_version(">=3.13"), Some((3, 13)));
    assert_eq!(parse_min_python_version(">=3.13,<4"), Some((3, 13)));
    assert_eq!(parse_min_python_version("==3.12"), Some((3, 12)));
    assert_eq!(parse_min_python_version(">=3.10.1"), Some((3, 10)));
    assert_eq!(parse_min_python_version("~=3.8"), None); // ~= not supported
}

#[test]
fn python_version_first_usable_clause_wins() {
    assert_eq!(parse_min_python_version("<4, >=3.9"), Some((3, 9)));
    assert_eq!(parse_min_python_version(">=3, ==3.11"), Some((3, 11)));
    assert_eq!(parse_min_python_version(" >= 3.12 "), Some((3, 12)));
    assert_eq!(parse_min_python_version(">=+3.8"), Some((3, 8)));
}

#[test]
fn python_version_rejects_malformed() {
    assert_eq!(parse_min_python_version(""), None);
    assert_eq!(parse_min_python_version(">=3"), None);
    assert_eq!(parse_min_python_version(">=3.x"), None);
    assert_eq!(parse_min_python_version(">=3.-1"), None);
    assert_eq!(parse_min_python_version(">=4294967296.0"), None);
    assert_eq!(parse_min_python_version(">=4294967295.0"), Some((4294967295, 0)));
    assert_eq!(parse_min_python_version(">=3..1"), None);
}

// -- Exclusions --

#[test]
fn excludes_combine_global_and_matching_patterns() {
    let config = Config {
        exclude: strings(&["no-print", "no-assert"]),
        per_file_ignores: vec![
            ("tests/**".to_string(), strings(&["no-assert", "no-dataclass"])),
            ("scripts/**".to_string(), strings(&["no-todo-comment"])),
        ],
        ..Config::default()
    };
    let mut got = config.excludes_for_path("tests/test_a.py");
    got.sort();
    assert_eq!(got, strings(&["no-assert", "no-dataclass", "no-print"]));
    let mut other = config.excludes_for_path("src/a.py");
    other.sort();
    assert_eq!(other, strings(&["no-assert", "no-print"]));
}

#[test]
fn excludes_empty_config() {
    assert!(Config::default().excludes_for_path("a.py").is_empty());
}

// -- Reading [tool.slopcop] --

#[test]
fn test_help_override_parsing() {
    let raw = RawConfig {
        exclude: vec![],
        per_file_ignores: vec![],
        rules: vec![
            (
                "no-print".to_string(),
                table(vec![("help", SettingValue::Text("Use structlog in this project.".to_string()))]),
            ),
            (
                "max-function-params".to_string(),
                table(vec![
                    ("max", SettingValue::Integer(10)),
                    ("help", SettingValue::Text("Group into a Pydantic model.".to_string())),
                ]),
            ),
        ],
    };
    let config = raw.into_config();
    let help = |id: &str| {
        config.help_overrides.iter().find(|(k, _)| k == id).map(|(_, v)| v.as_str())
    };
    assert_eq!(help("no-print"), Some("Use structlog in this project."));
    assert_eq!(help("max-function-params"), Some("Group into a Pydantic model."));
    assert_eq!(config.rules.max_function_params.as_ref().unwrap().max, 10);
}

#[test]
fn test_help_override_empty_rules() {
    let raw = RawConfig { exclude: vec![], per_file_ignores: vec![], rules: vec![] };
    let config = raw.into_config();
    assert!(config.help_overrides.is_empty());
}

#[test]
fn into_config_ignores_ill_typed_settings() {
    let raw = RawConfig {
        exclude: strings(&["no-print"]),
        per_file_ignores: vec![("a/**".to_string(), strings(&["no-assert"]))],
        rules: vec![
            ("max-function-params".to_string(), table(vec![("max", SettingValue::Text("ten".to_string()))])),
            ("no-print".to_string(), table(vec![("help", SettingValue::Integer(3))])),
            ("no-assert".to_string(), None),
            ("other".to_string(), table(vec![("max", SettingValue::Integer(4))])),
        ],
    };
    let config = raw.into_config();
    assert!(config.rules.max_function_params.is_none());
    assert!(config.help_overrides.is_empty());
    assert_eq!(config.exclude, strings(&["no-print"]));
    assert_eq!(config.per_file_ignores.len(), 1);
    assert_eq!(config.min_python_version, None);
}

#[test]
fn pyproject_reads_tool_table_and_python_version() {
    let p = PyprojectToml {
        project: Some(ProjectTable { requires_python: Some(">=3.11".to_string()) }),
        tool: Some(ToolTable {
            slopcop: Some(RawConfig {
                exclude: strings(&["no-dataclass"]),
                per_file_ignores: vec![],
                rules: vec![(
                    "max-function-params".to_string(),
                    table(vec![("max", SettingValue::Integer(12))]),
                )],
            }),
        }),
    };
    let config = config_from_pyproject(p);
    assert_eq!(config.min_python_version, Some((3, 11)));
    assert_eq!(config.exclude, strings(&["no-dataclass"]));
    assert_eq!(max_params_limit(&config), 12);
}

#[test]
fn pyproject_without_tool_table() {
    let p = PyprojectToml {
        project: Some(ProjectTable { requires_python: Some("~=3.8".to_string()) }),
        tool: None,
    };
    let config = config_from_pyproject(p);
    assert_eq!(config.min_python_version, None);
    assert!(config.exclude.is_empty());
    assert_eq!(max_params_limit(&config), DEFAULT_MAX_PARAMS);
    assert_eq!(DEFAULT_MAX_PARAMS, 8);
}

// -- Discovery --

#[test]
fn discovery_starts_in_the_directory_of_a_file() {
    assert!(matches!(
        discover_config(DiscoverEvent::Started { is_file: true, has_parent: true }),
        DiscoverAction::ProbeParent
    ));
    assert!(matches!(
        discover_config(DiscoverEvent::Started { is_file: false, has_parent: true }),
        DiscoverAction::ProbeHere
    ));
    assert!(matches!(
        discover_config(DiscoverEvent::Started { is_file: true, has_parent: false }),
        DiscoverAction::ProbeHere
    ));
}

#[test]
fn discovery_uses_nearest_config() {
    let found = Config { exclude: strings(&["no-print"]), ..Config::default() };
    match discover_config(DiscoverEvent::Probed { loaded: Some(found), has_parent: true }) {
        DiscoverAction::Finish(c) => assert_eq!(c.exclude, strings(&["no-print"])),
        _ => panic!("expected the loaded configuration"),
    }
    assert!(matches!(
        discover_config(DiscoverEvent::Probed { loaded: None, has_parent: true }),
        DiscoverAction::ProbeParent
    ));
    match discover_config(DiscoverEvent::Probed { loaded: None, has_parent: false }) {
        DiscoverAction::Finish(c) => {
            assert!(c.exclude.is_empty());
            assert!(c.help_overrides.is_empty());
        }
        _ => panic!("expected the default configuration"),
    }
}

// -- Help texts --

#[test]
fn help_texts_cover_every_rule_with_overrides_applied() {
    let config = Config {
        help_overrides: vec![(
            "no-redundant-none-check".to_string(),
            "Check the annotation.".to_string(),
        )],
        ..Config::default()
    };
    let map = help_texts(&config);
    assert_eq!(map.len(), all_rules().len());
    assert_eq!(all_rules().len(), 2);
    let get = |id: &str| map.iter().find(|(k, _)| *k == id).map(|(_, v)| v.as_str());
    assert_eq!(get("no-redundant-none-check"), Some("Check the annotation."));
    assert_eq!(get("no-str-empty-default"), Some(""));
}

#[test]
fn help_texts_without_overrides_are_built_in() {
    let map = help_texts(&Config::default());
    let ids: Vec<&str> = map.iter().map(|(k, _)| *k).collect();
    assert_eq!(ids, vec!["no-str-empty-default", "no-redundant-none-check"]);
    assert!(map.iter().all(|(_, v)| v.is_empty()));
}

#[test]
fn help_override_for_unknown_rule_is_ignored() {
    let config = Config {
        help_overrides: vec![("no-such-rule".to_string(), "x".to_string())],
        ..Config::default()
    };
    let map = help_texts(&config);
    assert_eq!(map.len(), 2);
    assert!(map.iter().all(|(_, v)| v.is_empty()));
    assert_eq!(help_for(&config, "no-such-rule"), None);
}

#[test]
fn help_for_applies_the_last_override() {
    let config = Config {
        help_overrides: vec![
            ("no-str-empty-default".to_string(), "first".to_string()),
            ("no-str-empty-default".to_string(), "second".to_string()),
        ],
        ..Config::default()
    };
    assert_eq!(help_for(&config, "no-str-empty-default"), Some("second".to_string()));
    assert_eq!(help_for(&config, "no-redundant-none-check"), Some(String::new()));
}

#[test]
fn max_params_limit_prefers_configured_value() {
    let config = Config {
        rules: RuleConfigs { max_function_params: Some(MaxFunctionParamsConfig { max: 3 }) },
        ..Config::default()
    };
    assert_eq!(max_params_limit(&config), 3);
}
