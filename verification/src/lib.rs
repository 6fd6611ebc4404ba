//! A linter for Python sources that catches anti-patterns: its
//! configuration, path patterns, rules, rule runner and report preparation,
//! each with its behaviour stated and proved.

pub mod config;
pub mod diagnostic;
pub mod engine;
pub mod glob;
pub mod parse;
pub mod report;
pub mod rules;
pub mod suppress;
pub mod syntax;
pub mod text;
pub mod version;

pub use config::Config;
pub use engine::lint_source_with_config;
