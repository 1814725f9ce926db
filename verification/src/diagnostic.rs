//! What a rule reports
use vstd::prelude::*;

verus! {

/// How serious a finding is
#[derive(Clone, Copy, Debug, PartialEq, Eq, Structural)]
pub enum Severity {
    /// Worth fixing, but not an error
    Warn,
}

/// A finding of one rule: the rule's id, its severity, the advice, and the
/// byte range of the file it points at
///
/// Every rule in this crate reports at warning severity.
#[derive(Clone, Debug)]
pub struct Diagnostic {
    pub rule: String,
    pub severity: Severity,
    pub message: String,
    pub start: usize,
    pub end: usize,
}

/// What a diagnostic says, as plain values
pub open spec fn diag_view(d: Diagnostic) -> (Seq<char>, Seq<char>, usize, usize) {
    (d.rule@, d.message@, d.start, d.end)
}

/// The views of a list of diagnostics
pub open spec fn diag_views(ds: Seq<Diagnostic>) -> Seq<(Seq<char>, Seq<char>, usize, usize)> {
    ds.map_values(|d: Diagnostic| diag_view(d))
}

/// Whether every finding in `ds` reports under the rule id `id`
pub open spec fn all_under(ds: Seq<(Seq<char>, Seq<char>, usize, usize)>, id: Seq<char>) -> bool {
    forall|i: int| 0 <= i < ds.len() ==> (#[trigger] ds[i]).0 == id
}

impl Diagnostic {
    /// Creates a diagnostic of the rule `rule` that says `message` about the
    /// bytes `start..end`
    pub fn new(rule: &str, message: String, start: usize, end: usize) -> (r: Self)
        ensures
            diag_view(r) == (rule@, message@, start, end),
            r.severity == Severity::Warn,
    {
        Diagnostic { rule: rule.to_owned(), severity: Severity::Warn, message, start, end }
    }
}

} // verus!
