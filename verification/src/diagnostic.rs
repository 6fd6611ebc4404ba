//! Findings of the rules.

use vstd::prelude::*;
use crate::rules::Severity;

verus! {

/// One finding: where it is, which rule made it, how severe it is, and
/// what it says.
#[derive(Debug)]
pub struct Diagnostic {
    pub path: String,
    /// The line, counted from 1.
    pub line: usize,
    /// The column, in bytes, counted from 0.
    pub col: usize,
    pub rule_id: &'static str,
    pub severity: Severity,
    pub message: String,
}

/// A finding as a mathematical value.
pub struct DiagnosticView {
    pub path: Seq<char>,
    pub line: nat,
    pub col: nat,
    pub rule_id: Seq<char>,
    pub severity: Severity,
    pub message: Seq<char>,
}

impl View for Diagnostic {
    type V = DiagnosticView;

    open spec fn view(&self) -> DiagnosticView {
        DiagnosticView {
            path: self.path@,
            line: self.line as nat,
            col: self.col as nat,
            rule_id: self.rule_id@,
            severity: self.severity,
            message: self.message@,
        }
    }
}

/// The views of a sequence of findings.
pub open spec fn diag_views(v: Seq<Diagnostic>) -> Seq<DiagnosticView> {
    v.map_values(|d: Diagnostic| d@)
}

} // verus!
