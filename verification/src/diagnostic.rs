use vstd::prelude::*;

use crate::position::Range;
use crate::syntax::text_of;

verus! {

/// How bad a finding is.
#[derive(Clone, Copy, Debug, PartialEq, Eq, Structural)]
pub enum Severity {
    Error,
    Warning,
}

/// A finding about a document.
#[derive(Debug)]
pub struct Diagnostic {
    pub range: Range,
    pub severity: Severity,
    pub source: Option<String>,
    pub message: String,
}

/// The model of a [`Diagnostic`].
#[verifier::ext_equal]
pub struct DiagnosticView {
    pub range: Range,
    pub severity: Severity,
    pub source: Option<Seq<char>>,
    pub message: Seq<char>,
}

impl View for Diagnostic {
    type V = DiagnosticView;

    open spec fn view(&self) -> DiagnosticView {
        DiagnosticView {
            range: self.range,
            severity: self.severity,
            source: text_of(self.source),
            message: self.message@,
        }
    }
}

/// The models of a list of findings.
pub open spec fn diagnostic_views(diagnostics: Seq<Diagnostic>) -> Seq<DiagnosticView> {
    diagnostics.map_values(|d: Diagnostic| d@)
}

} // verus!
