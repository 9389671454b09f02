//! What analyzers report about their own run: who observed, how completely,
//! and what went wrong along the way.
use vstd::prelude::*;

pub use crate::model_code::{CodeSymbol, DependencyType, NodeKind};
use crate::kernel::{EntityObservation, RelationObservation};
use crate::model_code::RevisionId;

verus! {

/// The analyzer that made a set of observations, and what it read them from
/// when it says.
#[derive(Debug, Clone, PartialEq, Eq)]
pub struct AnalyzerProvenance {
    pub analyzer: String,
    pub version: String,
    pub configuration_digest: Option<String>,
    pub source: Option<String>,
}

/// How much of a snapshot a batch of observations covers.
#[derive(Debug, Clone, Copy, PartialEq, Eq)]
pub enum AnalysisCoverage {
    Complete,
    Partial,
    Unavailable,
}

/// The coverage of two batches taken together: complete only when both are,
/// unavailable only when both are, partial otherwise.
pub open spec fn combined_coverage(left: AnalysisCoverage, right: AnalysisCoverage) -> AnalysisCoverage {
    match (left, right) {
        (AnalysisCoverage::Unavailable, AnalysisCoverage::Unavailable) => AnalysisCoverage::Unavailable,
        (AnalysisCoverage::Complete, AnalysisCoverage::Complete) => AnalysisCoverage::Complete,
        _ => AnalysisCoverage::Partial,
    }
}

/// The coverage of two batches taken together.
pub fn merge_coverage(left: AnalysisCoverage, right: AnalysisCoverage) -> (c: AnalysisCoverage)
    ensures
        c == combined_coverage(left, right),
{
    match (left, right) {
        (AnalysisCoverage::Unavailable, AnalysisCoverage::Unavailable) => AnalysisCoverage::Unavailable,
        (AnalysisCoverage::Complete, AnalysisCoverage::Complete) => AnalysisCoverage::Complete,
        _ => AnalysisCoverage::Partial,
    }
}

/// Combining coverage does not depend on the order of the batches.
pub proof fn law_coverage_commutative(a: AnalysisCoverage, b: AnalysisCoverage)
    ensures
        combined_coverage(a, b) == combined_coverage(b, a),
{
}

/// Combining coverage does not depend on how the batches are grouped.
pub proof fn law_coverage_associative(a: AnalysisCoverage, b: AnalysisCoverage, c: AnalysisCoverage)
    ensures
        combined_coverage(combined_coverage(a, b), c) == combined_coverage(a, combined_coverage(b, c)),
{
}

/// A batch combined with one of the same coverage keeps that coverage.
pub proof fn law_coverage_idempotent(a: AnalysisCoverage)
    ensures
        combined_coverage(a, a) == a,
{
}

/// How serious a diagnostic is.
#[derive(Debug, Clone, Copy, PartialEq, Eq)]
pub enum DiagnosticSeverity {
    Info,
    Warning,
    Error,
}

/// Something an analyzer wants the user to know about its run.
#[derive(Debug, Clone, PartialEq, Eq)]
pub struct AnalysisDiagnostic {
    pub severity: DiagnosticSeverity,
    pub analyzer: String,
    pub message: String,
    pub file_path: Option<String>,
}

/// Two batches describe different revisions.
#[derive(Debug, Clone, Copy, PartialEq, Eq)]
pub struct RevisionMismatch;

/// A revision as text: the repository and the commit.
pub open spec fn revision_view(r: RevisionId) -> (Seq<char>, Seq<char>) {
    (r.repository@, r.commit@)
}

/// Whether two revisions name the same commit of the same repository.
pub fn same_revision(a: &RevisionId, b: &RevisionId) -> (r: bool)
    ensures
        r == (revision_view(*a) == revision_view(*b)),
{
    let r = crate::text::same_chars(&crate::text::chars_of(a.repository.as_str()), &crate::text::chars_of(b.repository.as_str()))
        && crate::text::same_chars(&crate::text::chars_of(a.commit.as_str()), &crate::text::chars_of(b.commit.as_str()));
    r
}

/// What the analyzers observed of one revision. The observations of symbols
/// and of dependencies are of the types `S` and `D` that the analyzers use.
#[derive(Debug, Clone)]
pub struct ObservationBatch<S, D> {
    pub revision: RevisionId,
    pub provenance: Vec<AnalyzerProvenance>,
    pub coverage: AnalysisCoverage,
    pub symbols: Vec<S>,
    pub dependencies: Vec<D>,
    pub diagnostics: Vec<AnalysisDiagnostic>,
}

/// The observations of the code model: entities and the relations between
/// them.
pub type CodeBatch = ObservationBatch<EntityObservation, RelationObservation>;

pub ghost struct BatchView<S, D> {
    pub revision: (Seq<char>, Seq<char>),
    pub provenance: Seq<AnalyzerProvenance>,
    pub coverage: AnalysisCoverage,
    pub symbols: Seq<S>,
    pub dependencies: Seq<D>,
    pub diagnostics: Seq<AnalysisDiagnostic>,
}

impl<S, D> View for ObservationBatch<S, D> {
    type V = BatchView<S, D>;

    open spec fn view(&self) -> BatchView<S, D> {
        BatchView {
            revision: revision_view(self.revision),
            provenance: self.provenance@,
            coverage: self.coverage,
            symbols: self.symbols@,
            dependencies: self.dependencies@,
            diagnostics: self.diagnostics@,
        }
    }
}

/// A batch of the given revision with no observations.
pub open spec fn empty_view<S, D>(revision: (Seq<char>, Seq<char>)) -> BatchView<S, D> {
    BatchView {
        revision,
        provenance: Seq::empty(),
        coverage: AnalysisCoverage::Unavailable,
        symbols: Seq::empty(),
        dependencies: Seq::empty(),
        diagnostics: Seq::empty(),
    }
}

/// Two batches of the same revision taken together: the observations of the
/// first, then those of the second.
pub open spec fn merged_view<S, D>(a: BatchView<S, D>, b: BatchView<S, D>) -> BatchView<S, D> {
    BatchView {
        revision: a.revision,
        provenance: a.provenance + b.provenance,
        coverage: combined_coverage(a.coverage, b.coverage),
        symbols: a.symbols + b.symbols,
        dependencies: a.dependencies + b.dependencies,
        diagnostics: a.diagnostics + b.diagnostics,
    }
}

impl<S, D> ObservationBatch<S, D> {
    /// A batch of `revision` that observed nothing.
    pub fn empty(revision: RevisionId) -> (b: Self)
        ensures
            b@ == empty_view::<S, D>(revision_view(revision)),
    {
        ObservationBatch {
            revision,
            provenance: Vec::new(),
            coverage: AnalysisCoverage::Unavailable,
            symbols: Vec::new(),
            dependencies: Vec::new(),
            diagnostics: Vec::new(),
        }
    }

    /// Adds the observations of another analyzer; refused, with nothing
    /// changed, when the other batch describes another revision.
    pub fn merge(&mut self, other: Self) -> (r: Result<(), RevisionMismatch>)
        ensures
            r is Ok <==> old(self)@.revision == other@.revision,
            r is Ok ==> final(self)@ == merged_view(old(self)@, other@),
            r is Err ==> final(self)@ == old(self)@,
    {
        if !same_revision(&self.revision, &other.revision) {
            return Err(RevisionMismatch);
        }
        let mut other = other;
        self.provenance.append(&mut other.provenance);
        self.symbols.append(&mut other.symbols);
        self.dependencies.append(&mut other.dependencies);
        self.diagnostics.append(&mut other.diagnostics);
        self.coverage = merge_coverage(self.coverage, other.coverage);
        Ok(())
    }
}

/// Merging batches does not depend on how they are grouped.
pub proof fn law_merge_associative<S, D>(a: BatchView<S, D>, b: BatchView<S, D>, c: BatchView<S, D>)
    ensures
        merged_view(merged_view(a, b), c) == merged_view(a, merged_view(b, c)),
{
    assert(merged_view(merged_view(a, b), c).provenance =~= merged_view(a, merged_view(b, c)).provenance);
    assert(merged_view(merged_view(a, b), c).symbols =~= merged_view(a, merged_view(b, c)).symbols);
    assert(merged_view(merged_view(a, b), c).dependencies =~= merged_view(a, merged_view(b, c)).dependencies);
    assert(merged_view(merged_view(a, b), c).diagnostics =~= merged_view(a, merged_view(b, c)).diagnostics);
}

} // verus!
