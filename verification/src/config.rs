//! Project configuration, read from `[tool.slopcop]` in `pyproject.toml`:
//! rules switched off globally or per file pattern, rule settings, help
//! text overrides and the minimum Python version.

use vstd::prelude::*;
use crate::glob::glob_match;
use crate::text::string_is;
use crate::version::min_python_version;

pub use crate::glob::{glob_match_recursive, glob_matches};
pub use crate::version::parse_min_python_version;

verus! {

broadcast use vstd::string::group_string_axioms;

/// The views of a sequence of strings.
pub open spec fn str_views(v: Seq<String>) -> Seq<Seq<char>> {
    v.map_values(|s: String| s@)
}

/// Whether no string occurs twice in `v`.
pub open spec fn no_duplicates(v: Seq<Seq<char>>) -> bool {
    forall|i: int, j: int| 0 <= i < j < v.len() ==> v[i] != v[j]
}

/// Settings of the `max-function-params` rule.
#[derive(Debug, Clone, Copy)]
pub struct MaxFunctionParamsConfig {
    pub max: usize,
}

/// Per-rule settings.
#[derive(Debug, Clone)]
pub struct RuleConfigs {
    pub max_function_params: Option<MaxFunctionParamsConfig>,
}

/// The configuration of a lint run.
#[derive(Debug, Clone)]
pub struct Config {
    /// Rule ids switched off everywhere.
    pub exclude: Vec<String>,
    /// Path patterns, each with the rule ids switched off for the paths it
    /// matches.
    pub per_file_ignores: Vec<(String, Vec<String>)>,
    pub rules: RuleConfigs,
    /// The minimum Python version the project supports, as (major, minor).
    pub min_python_version: Option<(u32, u32)>,
    /// Help text overrides, by rule id.
    pub help_overrides: Vec<(String, String)>,
}

/// Whether `cfg` holds nothing: no exclusion, no per-file ignore, no rule
/// setting, no minimum version and no help override.
pub open spec fn is_empty_config(cfg: Config) -> bool {
    &&& cfg.exclude@.len() == 0
    &&& cfg.per_file_ignores@.len() == 0
    &&& cfg.rules.max_function_params is None
    &&& cfg.min_python_version is None
    &&& cfg.help_overrides@.len() == 0
}

impl Default for RuleConfigs {
    fn default() -> (r: Self)
        ensures
            r.max_function_params is None,
    {
        RuleConfigs { max_function_params: None }
    }
}

impl Default for Config {
    fn default() -> (r: Self)
        ensures
            is_empty_config(r),
            r.wf(),
    {
        Config {
            exclude: Vec::new(),
            per_file_ignores: Vec::new(),
            rules: RuleConfigs { max_function_params: None },
            min_python_version: None,
            help_overrides: Vec::new(),
        }
    }
}

/// Whether the per-file pattern `pattern` applies to `path`.
pub open spec fn pattern_applies(pattern: Seq<char>, path: Seq<char>) -> bool {
    glob_match(pattern, path)
}

/// The patterns of a list of per-file ignores.
pub open spec fn pattern_keys(v: Seq<(String, Vec<String>)>) -> Seq<Seq<char>> {
    v.map_values(|p: (String, Vec<String>)| p.0@)
}

/// The first members of a sequence of pairs.
pub open spec fn pair_keys(v: Seq<(Seq<char>, Seq<char>)>) -> Seq<Seq<char>> {
    v.map_values(|p: (Seq<char>, Seq<char>)| p.0)
}

impl Config {
    /// Whether the configuration is well formed: each per-file pattern,
    /// and each rule id among the help overrides, occurs once.
    pub open spec fn wf(self) -> bool {
        &&& no_duplicates(pattern_keys(self.per_file_ignores@))
        &&& no_duplicates(pair_keys(pair_views(self.help_overrides@)))
    }

    /// Whether the rule `rule` is switched off for `path`: globally, or by a
    /// per-file pattern that matches `path`.
    pub open spec fn excludes(self, path: Seq<char>, rule: Seq<char>) -> bool {
        ||| str_views(self.exclude@).contains(rule)
        ||| exists|i: int|
            0 <= i < self.per_file_ignores@.len() && pattern_applies(
                self.per_file_ignores@[i].0@,
                path,
            ) && str_views(#[trigger] self.per_file_ignores@[i].1@).contains(rule)
    }

    /// The rule ids switched off for `path`: the global `exclude` together
    /// with the rules of every per-file pattern that matches `path`; each
    /// id once.
    pub fn excludes_for_path(&self, path: &str) -> (r: Vec<String>)
        ensures
            forall|rule: Seq<char>|
                str_views(r@).contains(rule) <==> self.excludes(path@, rule),
            no_duplicates(str_views(r@)),
    {
        let mut out: Vec<String> = Vec::new();
        assert(str_views(out@) =~= Seq::empty());
        add_all_unique(&mut out, &self.exclude);
        let mut k: usize = 0;
        while k < self.per_file_ignores.len()
            invariant
                k <= self.per_file_ignores@.len(),
                no_duplicates(str_views(out@)),
                forall|rule: Seq<char>|
                    str_views(out@).contains(rule) <==> (str_views(self.exclude@).contains(rule)
                        || exists|j: int|
                        0 <= j < k && pattern_applies(self.per_file_ignores@[j].0@, path@)
                            && str_views(#[trigger] self.per_file_ignores@[j].1@).contains(
                            rule,
                        )),
            decreases self.per_file_ignores.len() - k,
        {
            let ghost before = str_views(out@);
            let entry = &self.per_file_ignores[k];
            if glob_matches(entry.0.as_str(), path) {
                let rules = &entry.1;
                add_all_unique(&mut out, rules);
                assert forall|rule: Seq<char>|
                    str_views(out@).contains(rule) <==> (str_views(self.exclude@).contains(rule)
                        || exists|j: int|
                        0 <= j < k + 1 && pattern_applies(self.per_file_ignores@[j].0@, path@)
                            && str_views(#[trigger] self.per_file_ignores@[j].1@).contains(
                            rule,
                        )) by {
                    if exists|j: int|
                        0 <= j < k + 1 && pattern_applies(self.per_file_ignores@[j].0@, path@)
                            && str_views(#[trigger] self.per_file_ignores@[j].1@).contains(
                            rule,
                        ) {
                        let j = choose|j: int|
                            0 <= j < k + 1 && pattern_applies(
                                self.per_file_ignores@[j].0@,
                                path@,
                            ) && str_views(#[trigger] self.per_file_ignores@[j].1@).contains(
                                rule,
                            );
                        if j == k {
                            assert(str_views(rules@).contains(rule));
                        }
                    }
                    if str_views(rules@).contains(rule) {
                        assert(0 <= k < k + 1 && pattern_applies(
                            self.per_file_ignores@[k as int].0@,
                            path@,
                        ) && str_views(self.per_file_ignores@[k as int].1@).contains(rule));
                    }
                }
            } else {
                assert forall|rule: Seq<char>|
                    str_views(out@).contains(rule) <==> (str_views(self.exclude@).contains(rule)
                        || exists|j: int|
                        0 <= j < k + 1 && pattern_applies(self.per_file_ignores@[j].0@, path@)
                            && str_views(#[trigger] self.per_file_ignores@[j].1@).contains(
                            rule,
                        )) by {
                    if exists|j: int|
                        0 <= j < k + 1 && pattern_applies(self.per_file_ignores@[j].0@, path@)
                            && str_views(#[trigger] self.per_file_ignores@[j].1@).contains(
                            rule,
                        ) {
                        let j = choose|j: int|
                            0 <= j < k + 1 && pattern_applies(
                                self.per_file_ignores@[j].0@,
                                path@,
                            ) && str_views(#[trigger] self.per_file_ignores@[j].1@).contains(
                                rule,
                            );
                        assert(j != k);
                    }
                }
            }
            k = k + 1;
        }
        out
    }
}

/// A value in a rule's settings table, as far as the settings are read.
#[derive(Debug, Clone)]
pub enum SettingValue {
    Integer(i64),
    Text(String),
    Other,
}

/// The settings table of one rule: its entries in order, each key once.
#[derive(Debug, Clone)]
pub struct RuleTable {
    pub entries: Vec<(String, SettingValue)>,
}

/// `[tool.slopcop]` as written in `pyproject.toml`. `rules` holds one entry
/// per `[tool.slopcop.rules.<id>]` key: the rule id, and its settings table,
/// or `None` where the value under the key is not a table.
#[derive(Debug, Clone)]
pub struct RawConfig {
    pub exclude: Vec<String>,
    pub per_file_ignores: Vec<(String, Vec<String>)>,
    pub rules: Vec<(String, Option<RuleTable>)>,
}

/// The rule ids of a list of rule tables.
pub open spec fn rule_keys(v: Seq<(String, Option<RuleTable>)>) -> Seq<Seq<char>> {
    v.map_values(|p: (String, Option<RuleTable>)| p.0@)
}

impl RawConfig {
    /// Whether the table is well formed, as a TOML table is: each per-file
    /// pattern, and each rule id, occurs once.
    pub open spec fn wf(self) -> bool {
        &&& no_duplicates(pattern_keys(self.per_file_ignores@))
        &&& no_duplicates(rule_keys(self.rules@))
    }
}

/// The value under `key` in a settings table.
pub open spec fn table_get(entries: Seq<(String, SettingValue)>, key: Seq<char>) -> Option<
    SettingValue,
>
    decreases entries.len(),
{
    if entries.len() == 0 {
        None
    } else if entries[0].0@ == key {
        Some(entries[0].1)
    } else {
        table_get(entries.drop_first(), key)
    }
}

/// The `max` setting that the entry `(id, table)` gives: an integer `max`
/// in the table of `max-function-params`, read as a `usize`.
pub open spec fn entry_max(id: Seq<char>, table: Option<RuleTable>) -> Option<usize> {
    match table {
        Some(t) => if id == "max-function-params"@ {
            match table_get(t.entries@, "max"@) {
                Some(SettingValue::Integer(v)) => Some(v as usize),
                _ => None,
            }
        } else {
            None
        },
        None => None,
    }
}

/// The help override that the entry `(id, table)` gives: a string `help`
/// in its table.
pub open spec fn entry_help(table: Option<RuleTable>) -> Option<Seq<char>> {
    match table {
        Some(t) => match table_get(t.entries@, "help"@) {
            Some(SettingValue::Text(h)) => Some(h@),
            _ => None,
        },
        None => None,
    }
}

/// The `max-function-params` limit that the rule tables set, if any.
pub open spec fn configured_max(rules: Seq<(String, Option<RuleTable>)>) -> Option<usize>
    decreases rules.len(),
{
    if rules.len() == 0 {
        None
    } else {
        match entry_max(rules.last().0@, rules.last().1) {
            Some(m) => Some(m),
            None => configured_max(rules.drop_last()),
        }
    }
}

/// The help overrides that the rule tables set, as (rule id, text), in the
/// order of the tables.
pub open spec fn configured_help(rules: Seq<(String, Option<RuleTable>)>) -> Seq<
    (Seq<char>, Seq<char>),
>
    decreases rules.len(),
{
    if rules.len() == 0 {
        Seq::empty()
    } else {
        let prev = configured_help(rules.drop_last());
        match entry_help(rules.last().1) {
            Some(h) => prev.push((rules.last().0@, h)),
            None => prev,
        }
    }
}

/// The views of a sequence of string pairs.
pub open spec fn pair_views(v: Seq<(String, String)>) -> Seq<(Seq<char>, Seq<char>)> {
    v.map_values(|p: (String, String)| (p.0@, p.1@))
}

/// The `max-function-params` limit that `c` sets, if any.
pub open spec fn max_setting(c: Config) -> Option<usize> {
    match c.rules.max_function_params {
        Some(m) => Some(m.max),
        None => None,
    }
}

/// Whether `c` holds the settings that `raw` writes down.
pub open spec fn holds_settings(c: Config, raw: RawConfig) -> bool {
    &&& c.exclude == raw.exclude
    &&& c.per_file_ignores == raw.per_file_ignores
    &&& max_setting(c) == configured_max(raw.rules@)
    &&& pair_views(c.help_overrides@) == configured_help(raw.rules@)
}

/// The value under `key` in the settings table `entries`.
fn table_lookup<'a>(entries: &'a Vec<(String, SettingValue)>, key: &str) -> (r: Option<
    &'a SettingValue,
>)
    ensures
        match r {
            Some(v) => table_get(entries@, key@) == Some(*v),
            None => table_get(entries@, key@) is None,
        },
{
    let mut i: usize = 0;
    assert(entries@.skip(0) =~= entries@);
    while i < entries.len()
        invariant
            i <= entries@.len(),
            table_get(entries@, key@) == table_get(entries@.skip(i as int), key@),
        decreases entries.len() - i,
    {
        assert(entries@.skip(i as int).drop_first() =~= entries@.skip(i + 1));
        if string_is(&entries[i].0, key) {
            return Some(&entries[i].1);
        }
        i = i + 1;
    }
    None
}

impl RawConfig {
    /// The configuration that `[tool.slopcop]` writes down: its exclusions
    /// and per-file ignores as they are, the `max` of
    /// `[tool.slopcop.rules.max-function-params]` where it is an integer,
    /// and the `help` string of every rule table that has one; no minimum
    /// Python version.
    pub fn into_config(self) -> (r: Config)
        ensures
            holds_settings(r, self),
            r.min_python_version is None,
            self.wf() ==> r.wf(),
    {
        proof {
            lemma_configured_help_keys(self.rules@);
        }
        let RawConfig { exclude, per_file_ignores, rules } = self;
        let mut max_function_params: Option<MaxFunctionParamsConfig> = None;
        let mut help_overrides: Vec<(String, String)> = Vec::new();
        let mut i: usize = 0;
        while i < rules.len()
            invariant
                i <= rules@.len(),
                match max_function_params {
                    Some(m) => Some(m.max),
                    None => None,
                } == configured_max(rules@.take(i as int)),
                pair_views(help_overrides@) == configured_help(rules@.take(i as int)),
            decreases rules.len() - i,
        {
            let ghost prefix = rules@.take(i + 1);
            assert(prefix.drop_last() =~= rules@.take(i as int));
            assert(prefix.last() == rules@[i as int]);
            let (rule_id, value) = &rules[i];
            if let Some(table) = value {
                if string_is(rule_id, "max-function-params") {
                    if let Some(SettingValue::Integer(max_val)) = table_lookup(&table.entries, "max") {
                        max_function_params = Some(MaxFunctionParamsConfig { max: *max_val as usize });
                    }
                }
                if let Some(SettingValue::Text(help)) = table_lookup(&table.entries, "help") {
                    let ghost before = help_overrides@;
                    help_overrides.push((rule_id.clone(), help.clone()));
                    assert(pair_views(help_overrides@) =~= pair_views(before).push(
                        (rule_id@, help@),
                    ));
                }
            }
            i = i + 1;
        }
        assert(rules@.take(rules@.len() as int) =~= rules@);
        Config {
            exclude,
            per_file_ignores,
            rules: RuleConfigs { max_function_params },
            min_python_version: None,
            help_overrides,
        }
    }
}

/// Each rule id among the help overrides that rule tables set is the id of
/// one of the tables; where the tables' ids are distinct, so are they.
pub proof fn lemma_configured_help_keys(rules: Seq<(String, Option<RuleTable>)>)
    ensures
        forall|m: int|
            0 <= m < pair_keys(configured_help(rules)).len() ==> rule_keys(rules).contains(
                #[trigger] pair_keys(configured_help(rules))[m],
            ),
        no_duplicates(rule_keys(rules)) ==> no_duplicates(pair_keys(configured_help(rules))),
    decreases rules.len(),
{
    if rules.len() > 0 {
        let init = rules.drop_last();
        lemma_configured_help_keys(init);
        let prev = configured_help(init);
        let keys = rule_keys(rules);
        assert(rule_keys(init) =~= keys.drop_last());
        assert(keys.last() == rules.last().0@);
        assert forall|x: Seq<char>| rule_keys(init).contains(x) implies keys.contains(x) by {
            let k = choose|k: int| 0 <= k < rule_keys(init).len() && rule_keys(init)[k] == x;
            assert(keys[k] == x);
        }
        match entry_help(rules.last().1) {
            Some(h) => {
                let now = pair_keys(prev.push((rules.last().0@, h)));
                assert(now =~= pair_keys(prev).push(rules.last().0@));
                assert(keys.contains(keys[keys.len() - 1]));
                if no_duplicates(keys) {
                    assert(no_duplicates(rule_keys(init)));
                    assert forall|a: int, b: int| 0 <= a < b < now.len() implies now[a] != now[b] by {
                        if b == now.len() - 1 {
                            let k = choose|k: int|
                                0 <= k < rule_keys(init).len() && rule_keys(init)[k] == now[a];
                            assert(keys[k] == now[a]);
                        }
                    }
                }
            },
            None => {},
        }
    }
}

/// `[project]` of `pyproject.toml`, as far as it is read.
#[derive(Debug, Clone)]
pub struct ProjectTable {
    pub requires_python: Option<String>,
}

/// `[tool]` of `pyproject.toml`, as far as it is read.
#[derive(Debug, Clone)]
pub struct ToolTable {
    pub slopcop: Option<RawConfig>,
}

/// A `pyproject.toml`, as far as it is read.
#[derive(Debug, Clone)]
pub struct PyprojectToml {
    pub project: Option<ProjectTable>,
    pub tool: Option<ToolTable>,
}

/// The `[tool.slopcop]` table of `p`, if it has one.
pub open spec fn slopcop_table(p: PyprojectToml) -> Option<RawConfig> {
    match p.tool {
        Some(t) => t.slopcop,
        None => None,
    }
}

/// The minimum Python version that `[project].requires-python` states.
pub open spec fn project_min_version(p: PyprojectToml) -> Option<(u32, u32)> {
    match p.project {
        Some(pr) => match pr.requires_python {
            Some(spec) => min_python_version(spec@),
            None => None,
        },
        None => None,
    }
}

/// The configuration that a `pyproject.toml` gives: the settings of its
/// `[tool.slopcop]` table (none where it has no such table), and the
/// minimum Python version of `[project].requires-python`.
pub fn config_from_pyproject(pyproject: PyprojectToml) -> (r: Config)
    ensures
        match slopcop_table(pyproject) {
            Some(raw) => holds_settings(r, raw),
            None => r.exclude@.len() == 0 && r.per_file_ignores@.len() == 0
                && r.rules.max_function_params is None && r.help_overrides@.len() == 0,
        },
        r.min_python_version == project_min_version(pyproject),
        (match slopcop_table(pyproject) {
            Some(raw) => raw.wf(),
            None => true,
        }) ==> r.wf(),
{
    let ghost p = pyproject;
    let PyprojectToml { project, tool } = pyproject;
    let mut config = match tool {
        Some(t) => match t.slopcop {
            Some(raw) => raw.into_config(),
            None => Config::default(),
        },
        None => Config::default(),
    };
    if let Some(project) = project {
        if let Some(spec) = project.requires_python {
            config.min_python_version = parse_min_python_version(spec.as_str());
        }
    }
    config
}

/// What the upward search for `pyproject.toml` learnt last.
pub enum DiscoverEvent {
    /// The search starts at a path: whether that path is a file, and
    /// whether it has a parent.
    Started { is_file: bool, has_parent: bool },
    /// `pyproject.toml` in the current directory was looked at: the
    /// configuration read from it, where it is a file that could be read
    /// and parsed; and whether the directory has a parent.
    Probed { loaded: Option<Config>, has_parent: bool },
}

/// What the upward search for `pyproject.toml` does next.
pub enum DiscoverAction {
    /// Look at `pyproject.toml` in the current directory.
    ProbeHere,
    /// Move to the parent directory and look at `pyproject.toml` there.
    ProbeParent,
    /// Stop: this is the configuration.
    Finish(Config),
}

/// One step of the upward search for the configuration. A search that
/// starts at a file starts in its directory (the file itself where it has
/// no parent). The first `pyproject.toml` on the way up that can be read
/// gives the configuration; where there is none up to the root, the
/// configuration is empty.
pub fn discover_config(event: DiscoverEvent) -> (r: DiscoverAction)
    ensures
        match event {
            DiscoverEvent::Started { is_file, has_parent } => if is_file && has_parent {
                r is ProbeParent
            } else {
                r is ProbeHere
            },
            DiscoverEvent::Probed { loaded, has_parent } => match loaded {
                Some(c) => r == DiscoverAction::Finish(c),
                None => if has_parent {
                    r is ProbeParent
                } else {
                    r matches DiscoverAction::Finish(c) && is_empty_config(c)
                },
            },
        },
{
    match event {
        DiscoverEvent::Started { is_file, has_parent } => {
            if is_file && has_parent {
                DiscoverAction::ProbeParent
            } else {
                DiscoverAction::ProbeHere
            }
        },
        DiscoverEvent::Probed { loaded, has_parent } => match loaded {
            Some(config) => DiscoverAction::Finish(config),
            None => {
                if has_parent {
                    DiscoverAction::ProbeParent
                } else {
                    DiscoverAction::Finish(Config::default())
                }
            },
        },
    }
}

pub proof fn lemma_views_take_push(v: Seq<String>, i: int, x: Seq<char>)
    requires
        0 <= i < v.len(),
    ensures
        str_views(v.take(i + 1)).contains(x) <==> (str_views(v.take(i)).contains(x) || x
            == v[i]@),
{
    let a = str_views(v.take(i));
    let b = str_views(v.take(i + 1));
    assert(b =~= a.push(v[i]@));
    if b.contains(x) {
        let m = choose|m: int| 0 <= m < b.len() && b[m] == x;
        if m < a.len() {
            assert(a[m] == x);
        }
    }
    if a.contains(x) {
        let m = choose|m: int| 0 <= m < a.len() && a[m] == x;
        assert(b[m] == x);
    }
    if x == v[i]@ {
        assert(b[i] == x);
    }
}

/// Adds each string of `items` to `out` unless one with the same
/// characters is there.
fn add_all_unique(out: &mut Vec<String>, items: &Vec<String>)
    requires
        no_duplicates(str_views(old(out)@)),
    ensures
        no_duplicates(str_views(final(out)@)),
        forall|x: Seq<char>|
            str_views(final(out)@).contains(x) <==> (str_views(old(out)@).contains(x)
                || str_views(items@).contains(x)),
{
    let ghost start = str_views(out@);
    let mut m: usize = 0;
    while m < items.len()
        invariant
            m <= items@.len(),
            start == str_views(old(out)@),
            no_duplicates(str_views(out@)),
            forall|x: Seq<char>|
                #![trigger str_views(out@).contains(x)]
                str_views(out@).contains(x) <==> (start.contains(x) || str_views(
                    items@.take(m as int),
                ).contains(x)),
        decreases items.len() - m,
    {
        let ghost prev = str_views(out@);
        let ghost at = m as int;
        add_unique(out, &items[m]);
        m = m + 1;
        proof {
            assert(m as int == at + 1);
            assert forall|x: Seq<char>|
                str_views(out@).contains(x) <==> (start.contains(x) || str_views(
                    items@.take(m as int),
                ).contains(x)) by {
                assert(str_views(out@).contains(x) <==> (prev.contains(x) || x == items@[at]@));
                lemma_views_take_push(items@, at, x);
                assert(prev.contains(x) <==> (start.contains(x) || str_views(items@.take(at)).contains(x)));
            }
        }
    }
    assert(items@.take(m as int) =~= items@);
}

/// Adds `s` to `out` unless a string with the same characters is there.
fn add_unique(out: &mut Vec<String>, s: &String)
    requires
        no_duplicates(str_views(old(out)@)),
    ensures
        no_duplicates(str_views(final(out)@)),
        forall|x: Seq<char>|
            str_views(final(out)@).contains(x) <==> (str_views(old(out)@).contains(x) || x
                == s@),
{
    let mut j: usize = 0;
    while j < out.len()
        invariant
            j <= out@.len(),
            out@ == old(out)@,
            no_duplicates(str_views(out@)),
            forall|m: int| 0 <= m < j ==> out@[m]@ != s@,
        decreases out.len() - j,
    {
        if out[j] == *s {
            assert(str_views(out@)[j as int] == s@);
            return;
        }
        j = j + 1;
    }
    let ghost before = out@;
    out.push(s.clone());
    assert(str_views(out@) =~= str_views(before).push(s@));
    assert forall|x: Seq<char>|
        str_views(out@).contains(x) <==> (str_views(before).contains(x) || x == s@) by {
        if str_views(out@).contains(x) {
            let m = choose|m: int| 0 <= m < str_views(out@).len() && str_views(out@)[m] == x;
            if m < before.len() {
                assert(str_views(before)[m] == x);
            }
        }
        if str_views(before).contains(x) {
            let m = choose|m: int| 0 <= m < str_views(before).len() && str_views(before)[m] == x;
            assert(str_views(out@)[m] == x);
        }
        if x == s@ {
            assert(str_views(out@)[before.len() as int] == x);
        }
    }
}

/// Law: every per-file-ignores entry whose pattern matches the path
/// switches off all of its rules for that path, whatever the other entries
/// are (matching ones before it included); and a rule is switched off only
/// by the global list or by an entry whose pattern matches.
pub proof fn law_every_matching_pattern_contributes(
    config: Config,
    path: Seq<char>,
    i: int,
    rule: Seq<char>,
)
    ensures
        0 <= i < config.per_file_ignores@.len() && glob_match(
            config.per_file_ignores@[i].0@,
            path,
        ) && str_views(config.per_file_ignores@[i].1@).contains(rule) ==> config.excludes(
            path,
            rule,
        ),
        config.excludes(path, rule) ==> str_views(config.exclude@).contains(rule) || exists|
            j: int,
        |
            0 <= j < config.per_file_ignores@.len() && glob_match(
                config.per_file_ignores@[j].0@,
                path,
            ) && #[trigger] str_views(config.per_file_ignores@[j].1@).contains(rule),
{
}

/// Law: exclusions only grow with the configuration: where `more` switches
/// off every rule that `less` switches off globally and holds every
/// per-file-ignores entry of `less` (in any order, among others), every rule
/// that `less` switches off for a path, `more` switches off too.
pub proof fn law_more_entries_exclude_more(
    less: Config,
    more: Config,
    path: Seq<char>,
    rule: Seq<char>,
)
    requires
        forall|x: Seq<char>|
            str_views(less.exclude@).contains(x) ==> str_views(more.exclude@).contains(x),
        forall|i: int|
            #![trigger less.per_file_ignores@[i]]
            0 <= i < less.per_file_ignores@.len() ==> exists|j: int|
                0 <= j < more.per_file_ignores@.len() && #[trigger] more.per_file_ignores@[j]
                    == less.per_file_ignores@[i],
    ensures
        less.excludes(path, rule) ==> more.excludes(path, rule),
{
    if less.excludes(path, rule) && !str_views(less.exclude@).contains(rule) {
        let i = choose|i: int|
            0 <= i < less.per_file_ignores@.len() && pattern_applies(
                less.per_file_ignores@[i].0@,
                path,
            ) && str_views(#[trigger] less.per_file_ignores@[i].1@).contains(rule);
        let j = choose|j: int|
            0 <= j < more.per_file_ignores@.len() && #[trigger] more.per_file_ignores@[j]
                == less.per_file_ignores@[i];
        assert(str_views(more.per_file_ignores@[j].1@).contains(rule));
    }
}

} // verus!
