//! The rules: what each looks at in a syntax tree and what it reports.

use vstd::prelude::*;
use crate::diagnostic::{diag_views, Diagnostic, DiagnosticView};
use crate::config::Config;
use crate::syntax::{nodes_of, SyntaxNode};
use crate::text::string_is;
use no_redundant_none_check::NoRedundantNoneCheck;
use no_str_empty_default::NoStrEmptyDefault;

pub mod no_redundant_none_check;
pub mod no_str_empty_default;

verus! {

/// How much a finding matters.
#[derive(Debug, Clone, Copy, PartialEq, Eq, Structural)]
pub enum Severity {
    Error,
    Warning,
}

/// A lint rule: its id, severity and help text, the node kinds it looks at,
/// and what it reports for a node of one of those kinds.
pub trait Rule {
    /// The findings for `node`, whose ancestors are `ancestors` (the root
    /// first, the parent last).
    spec fn findings(&self, node: SyntaxNode, ancestors: Seq<SyntaxNode>) -> Seq<DiagnosticView>;

    /// The rule's id.
    fn name(&self) -> &'static str;

    /// The severity of the rule's findings.
    fn severity(&self) -> (r: Severity)
        default_ensures
            r == Severity::Error,
    {
        Severity::Error
    }

    /// Guidance shown once per rule when findings are grouped: why the
    /// pattern is bad and how to fix it.
    fn help(&self) -> (r: &'static str)
        default_ensures
            r@ == Seq::<char>::empty(),
    {
        proof {
            reveal_strlit("");
        }
        ""
    }

    /// The kinds of the nodes the rule looks at.
    fn node_kinds(&self) -> &'static [&'static str];

    /// Appends the findings for `node` to `diagnostics`.
    fn check(&self, node: &SyntaxNode, ancestors: &[&SyntaxNode], diagnostics: &mut Vec<Diagnostic>)
        requires
            node.start_row < usize::MAX,
        ensures
            diag_views(final(diagnostics)@) == diag_views(old(diagnostics)@) + self.findings(
                *node,
                nodes_of(ancestors@),
            ),
    ;
}

/// The limit of `max-function-params` where the configuration sets none.
pub const DEFAULT_MAX_PARAMS: usize = 8;

/// The parameter limit of `max-function-params`: the configured `max`, or
/// `DEFAULT_MAX_PARAMS`.
pub fn max_params_limit(config: &Config) -> (r: usize)
    ensures
        r == match config.rules.max_function_params {
            Some(m) => m.max,
            None => DEFAULT_MAX_PARAMS,
        },
{
    match &config.rules.max_function_params {
        Some(c) => c.max,
        None => DEFAULT_MAX_PARAMS,
    }
}

/// One of the rules of the default rule set.
pub enum AnyRule {
    NoStrEmptyDefault(NoStrEmptyDefault),
    NoRedundantNoneCheck(NoRedundantNoneCheck),
}

impl AnyRule {
    /// The rule's id.
    pub open spec fn rule_name(self) -> Seq<char> {
        match self {
            AnyRule::NoStrEmptyDefault(_) => "no-str-empty-default"@,
            AnyRule::NoRedundantNoneCheck(_) => "no-redundant-none-check"@,
        }
    }

    /// The rule's help text.
    pub open spec fn rule_help(self) -> Seq<char> {
        Seq::empty()
    }

    /// The severity of the rule's findings.
    pub open spec fn rule_severity(self) -> Severity {
        Severity::Warning
    }

    /// The kinds of the nodes the rule looks at.
    pub open spec fn rule_kinds(self) -> Seq<Seq<char>> {
        match self {
            AnyRule::NoStrEmptyDefault(_) => seq!["typed_default_parameter"@, "assignment"@],
            AnyRule::NoRedundantNoneCheck(_) => seq!["comparison_operator"@],
        }
    }
}

/// The views of a sequence of string slices.
pub open spec fn str_slice_views(v: Seq<&str>) -> Seq<Seq<char>> {
    v.map_values(|s: &str| s@)
}

impl Rule for AnyRule {
    open spec fn findings(&self, node: SyntaxNode, ancestors: Seq<SyntaxNode>) -> Seq<
        DiagnosticView,
    > {
        match self {
            AnyRule::NoStrEmptyDefault(r) => r.findings(node, ancestors),
            AnyRule::NoRedundantNoneCheck(r) => r.findings(node, ancestors),
        }
    }

    fn name(&self) -> (r: &'static str)
        ensures
            r@ == self.rule_name(),
    {
        match self {
            AnyRule::NoStrEmptyDefault(r) => r.name(),
            AnyRule::NoRedundantNoneCheck(r) => r.name(),
        }
    }

    fn severity(&self) -> (r: Severity)
        ensures
            r == self.rule_severity(),
    {
        match self {
            AnyRule::NoStrEmptyDefault(r) => r.severity(),
            AnyRule::NoRedundantNoneCheck(r) => r.severity(),
        }
    }

    fn help(&self) -> (r: &'static str)
        ensures
            r@ == self.rule_help(),
    {
        match self {
            AnyRule::NoStrEmptyDefault(r) => r.help(),
            AnyRule::NoRedundantNoneCheck(r) => r.help(),
        }
    }

    fn node_kinds(&self) -> (r: &'static [&'static str])
        ensures
            str_slice_views(r@) == self.rule_kinds(),
    {
        match self {
            AnyRule::NoStrEmptyDefault(rule) => {
                let kinds = rule.node_kinds();
                assert(str_slice_views(kinds@) =~= self.rule_kinds());
                kinds
            },
            AnyRule::NoRedundantNoneCheck(rule) => {
                let kinds = rule.node_kinds();
                assert(str_slice_views(kinds@) =~= self.rule_kinds());
                kinds
            },
        }
    }

    fn check(&self, node: &SyntaxNode, ancestors: &[&SyntaxNode], diagnostics: &mut Vec<Diagnostic>) {
        match self {
            AnyRule::NoStrEmptyDefault(r) => r.check(node, ancestors, diagnostics),
            AnyRule::NoRedundantNoneCheck(r) => r.check(node, ancestors, diagnostics),
        }
    }
}

/// The default rule set, in order.
pub open spec fn default_rules() -> Seq<AnyRule> {
    seq![
        AnyRule::NoStrEmptyDefault(NoStrEmptyDefault),
        AnyRule::NoRedundantNoneCheck(NoRedundantNoneCheck),
    ]
}

/// The default rule set, with the settings of `config` applied.
pub fn all_rules_with_config(config: &Config) -> (r: Vec<AnyRule>)
    ensures
        r@ == default_rules(),
{
    let mut rules: Vec<AnyRule> = Vec::new();
    rules.push(AnyRule::NoStrEmptyDefault(NoStrEmptyDefault));
    rules.push(AnyRule::NoRedundantNoneCheck(NoRedundantNoneCheck));
    assert(rules@ =~= default_rules());
    rules
}

/// The default rule set with the default configuration.
pub fn all_rules() -> (r: Vec<AnyRule>)
    ensures
        r@ == default_rules(),
{
    all_rules_with_config(&Config::default())
}

/// The text that the last override for `name` among `overrides` gives.
pub open spec fn override_for(overrides: Seq<(Seq<char>, Seq<char>)>, name: Seq<char>) -> Option<
    Seq<char>,
>
    decreases overrides.len(),
{
    if overrides.len() == 0 {
        None
    } else if overrides.last().0 == name {
        Some(overrides.last().1)
    } else {
        override_for(overrides.drop_last(), name)
    }
}

/// The text of a help entry: the last override for `name` where there is
/// one, else the built-in `help`.
pub open spec fn help_text(overrides: Seq<(Seq<char>, Seq<char>)>, name: Seq<char>, help: Seq<char>) -> Seq<char> {
    match override_for(overrides, name) {
        Some(t) => t,
        None => help,
    }
}

/// The help table for rules given as (id, built-in help): one entry per
/// rule, in order, whose text is the last override for its id where there
/// is one, else its built-in help.
pub open spec fn help_table(
    rules: Seq<(Seq<char>, Seq<char>)>,
    overrides: Seq<(Seq<char>, Seq<char>)>,
) -> Seq<(Seq<char>, Seq<char>)> {
    rules.map_values(|e: (Seq<char>, Seq<char>)| (e.0, help_text(overrides, e.0, e.1)))
}

/// The views of a help table.
pub open spec fn help_views(v: Seq<(&'static str, String)>) -> Seq<(Seq<char>, Seq<char>)> {
    v.map_values(|p: (&'static str, String)| (p.0@, p.1@))
}

/// The (id, built-in help) pairs of a rule set.
pub open spec fn rule_helps(rules: Seq<AnyRule>) -> Seq<(Seq<char>, Seq<char>)> {
    rules.map_values(|r: AnyRule| (r.rule_name(), r.rule_help()))
}

/// The help text of every rule of the default set, by rule id, with the
/// overrides of `config` applied.
pub fn help_texts(config: &Config) -> (r: Vec<(&'static str, String)>)
    ensures
        help_views(r@) == help_table(
            rule_helps(default_rules()),
            config.help_overrides@.map_values(|p: (String, String)| (p.0@, p.1@)),
        ),
{
    let rules = all_rules_with_config(config);
    let ghost overrides = config.help_overrides@.map_values(|p: (String, String)| (p.0@, p.1@));
    let ghost all = rule_helps(rules@);
    let mut map: Vec<(&'static str, String)> = Vec::new();
    let mut i: usize = 0;
    while i < rules.len()
        invariant
            i <= rules@.len(),
            all == rule_helps(rules@),
            overrides == config.help_overrides@.map_values(|p: (String, String)| (p.0@, p.1@)),
            help_views(map@) == help_table(all.take(i as int), overrides),
        decreases rules.len() - i,
    {
        let rule = &rules[i];
        let name = rule.name();
        let help = rule.help();
        assert(all[i as int] == (name@, help@));
        let text = match override_lookup(&config.help_overrides, name) {
            Some(t) => t,
            None => help.to_owned(),
        };
        let ghost before = map@;
        map.push((name, text));
        assert(help_views(map@) =~= help_views(before).push((name@, text@)));
        assert(help_table(all.take(i + 1), overrides) =~= help_table(all.take(i as int), overrides).push(
            (name@, text@),
        ));
        i = i + 1;
    }
    assert(all.take(rules@.len() as int) =~= all);
    map
}

/// The help text for the rule `name` among the default rules, with the
/// overrides of `config` applied: `None` where no rule has that id.
pub fn help_for(config: &Config, name: &str) -> (r: Option<String>)
    ensures
        match r {
            Some(t) => exists|i: int|
                0 <= i < default_rules().len() && #[trigger] default_rules()[i].rule_name() == name@
                    && t@ == help_text(
                    config.help_overrides@.map_values(|p: (String, String)| (p.0@, p.1@)),
                    name@,
                    default_rules()[i].rule_help(),
                ),
            None => forall|i: int|
                0 <= i < default_rules().len() ==> #[trigger] default_rules()[i].rule_name() != name@,
        },
{
    let rules = all_rules_with_config(config);
    let target = name.to_owned();
    let mut i: usize = 0;
    while i < rules.len()
        invariant
            i <= rules@.len(),
            rules@ == default_rules(),
            target@ == name@,
            forall|j: int| 0 <= j < i ==> #[trigger] default_rules()[j].rule_name() != name@,
        decreases rules.len() - i,
    {
        let rule = &rules[i];
        if string_is(&target, rule.name()) {
            let help = rule.help();
            let text = match override_lookup(&config.help_overrides, name) {
                Some(t) => t,
                None => help.to_owned(),
            };
            return Some(text);
        }
        i = i + 1;
    }
    None
}

/// The text of the last override for `name`.
fn override_lookup(overrides: &Vec<(String, String)>, name: &str) -> (r: Option<String>)
    ensures
        match r {
            Some(t) => override_for(
                overrides@.map_values(|p: (String, String)| (p.0@, p.1@)),
                name@,
            ) == Some(t@),
            None => override_for(
                overrides@.map_values(|p: (String, String)| (p.0@, p.1@)),
                name@,
            ) is None,
        },
{
    let ghost all = overrides@.map_values(|p: (String, String)| (p.0@, p.1@));
    let mut i: usize = overrides.len();
    assert(all.take(i as int) =~= all);
    while i > 0
        invariant
            i <= overrides@.len(),
            all == overrides@.map_values(|p: (String, String)| (p.0@, p.1@)),
            override_for(all, name@) == override_for(all.take(i as int), name@),
        decreases i,
    {
        assert(all.take(i as int).drop_last() =~= all.take(i - 1));
        if string_is(&overrides[i - 1].0, name) {
            return Some(overrides[i - 1].1.clone());
        }
        i = i - 1;
    }
    None
}

/// The rule ids of a help table.
pub open spec fn help_ids(t: Seq<(Seq<char>, Seq<char>)>) -> Seq<Seq<char>> {
    t.map_values(|e: (Seq<char>, Seq<char>)| e.0)
}

/// Law: overrides change texts, never which rules have an entry: the help
/// table has an entry for every rule, in order, whatever the overrides; an
/// override gives the text of the entry of its rule; without overrides each
/// text is the built-in one.
pub proof fn law_overrides_keep_entries(
    rules: Seq<(Seq<char>, Seq<char>)>,
    overrides: Seq<(Seq<char>, Seq<char>)>,
)
    ensures
        help_ids(help_table(rules, overrides)) == help_ids(rules),
        forall|i: int|
            0 <= i < rules.len() && override_for(overrides, rules[i].0) is Some ==> (
            #[trigger] help_table(rules, overrides)[i]).1 == override_for(overrides, rules[i].0)->0,
        help_table(rules, Seq::empty()) == rules,
{
    assert(help_ids(help_table(rules, overrides)) =~= help_ids(rules));
    assert(help_table(rules, Seq::empty()) =~= rules);
}

} // verus!
