//! The embeddable indexing facade: how the observations of several analyzers
//! are combined into one batch, and what an index run reports.
use vstd::prelude::*;

use crate::model::{AnalyzerError, analyzer_error_message};
use crate::model_code::RevisionId;
use crate::observation::{
    AnalysisCoverage, BatchView, ObservationBatch, empty_view, merged_view, revision_view,
    same_revision,
};
use crate::store::{StoreError, store_error_message};

verus! {

/// Why an index run failed.
#[derive(Debug)]
pub enum DetamuError {
    Analyzer(AnalyzerError),
    Store(StoreError),
    RevisionMismatch,
}

pub open spec fn detamu_error_message(e: DetamuError) -> Seq<char> {
    match e {
        DetamuError::Analyzer(a) => analyzer_error_message(a),
        DetamuError::Store(s) => store_error_message(s),
        DetamuError::RevisionMismatch => "analyzer returned observations for a different revision"@,
    }
}

impl DetamuError {
    /// The text that describes this error: that of the analyzer or store error
    /// it carries, if any.
    pub fn message(&self) -> (s: String)
        ensures
            s@ == detamu_error_message(*self),
    {
        match self {
            DetamuError::Analyzer(a) => a.message(),
            DetamuError::Store(e) => e.message(),
            DetamuError::RevisionMismatch => "analyzer returned observations for a different revision".to_owned(),
        }
    }
}

impl From<AnalyzerError> for DetamuError {
    fn from(error: AnalyzerError) -> (r: Self) {
        DetamuError::Analyzer(error)
    }
}

impl vstd::std_specs::convert::FromSpecImpl<AnalyzerError> for DetamuError {
    open spec fn obeys_from_spec() -> bool {
        true
    }

    open spec fn from_spec(v: AnalyzerError) -> Self {
        DetamuError::Analyzer(v)
    }
}

impl From<StoreError> for DetamuError {
    fn from(error: StoreError) -> (r: Self) {
        DetamuError::Store(error)
    }
}

impl vstd::std_specs::convert::FromSpecImpl<StoreError> for DetamuError {
    open spec fn obeys_from_spec() -> bool {
        true
    }

    open spec fn from_spec(v: StoreError) -> Self {
        DetamuError::Store(v)
    }
}

/// What an index run did.
#[derive(Debug, Clone, PartialEq, Eq)]
pub struct IndexReport {
    pub revision: RevisionId,
    pub analyzers_run: usize,
    pub symbols: usize,
    pub dependencies: usize,
    pub coverage: AnalysisCoverage,
}

pub open spec fn batch_option_view<S, D>(b: Option<ObservationBatch<S, D>>) -> Option<BatchView<S, D>> {
    match b {
        Some(x) => Some(x@),
        None => None,
    }
}

/// What an index run holds after one more analyzer reported: the first
/// report, when it is of the input's revision, or the report merged into what
/// was gathered, when it is of the same revision; none on a mismatch.
pub open spec fn gathered_view<S, D>(
    combined: Option<BatchView<S, D>>,
    input: (Seq<char>, Seq<char>),
    observations: BatchView<S, D>,
) -> Option<BatchView<S, D>> {
    match combined {
        Some(b) => if b.revision == observations.revision {
            Some(merged_view(b, observations))
        } else {
            None
        },
        None => if observations.revision == input {
            Some(observations)
        } else {
            None
        },
    }
}

/// Takes in what one analyzer observed during an index run of
/// `input_revision`.
pub fn gather<S, D>(
    combined: Option<ObservationBatch<S, D>>,
    input_revision: &RevisionId,
    observations: ObservationBatch<S, D>,
) -> (r: Result<ObservationBatch<S, D>, DetamuError>)
    ensures
        match gathered_view(batch_option_view(combined), revision_view(*input_revision), observations@) {
            Some(v) => r matches Ok(b) && b@ == v,
            None => r matches Err(DetamuError::RevisionMismatch),
        },
{
    match combined {
        Some(batch) => {
            let mut batch = batch;
            match batch.merge(observations) {
                Ok(()) => Ok(batch),
                Err(_) => Err(DetamuError::RevisionMismatch),
            }
        },
        None => {
            if same_revision(&observations.revision, input_revision) {
                Ok(observations)
            } else {
                Err(DetamuError::RevisionMismatch)
            }
        },
    }
}

/// The batch an index run stores: what was gathered, or an empty batch of
/// the input's revision when no analyzer ran.
pub open spec fn stored_view<S, D>(combined: Option<BatchView<S, D>>, input: (Seq<char>, Seq<char>)) -> BatchView<S, D> {
    match combined {
        Some(b) => b,
        None => empty_view(input),
    }
}

/// The report of an index run of `input_revision` that ran `analyzers_run`
/// analyzers, with the batch to store.
pub fn finish<S, D>(
    combined: Option<ObservationBatch<S, D>>,
    input_revision: &RevisionId,
    analyzers_run: usize,
) -> (r: (IndexReport, ObservationBatch<S, D>))
    ensures
        r.1@ == stored_view(batch_option_view(combined), revision_view(*input_revision)),
        revision_view(r.0.revision) == r.1@.revision,
        r.0.analyzers_run == analyzers_run,
        r.0.symbols == r.1@.symbols.len(),
        r.0.dependencies == r.1@.dependencies.len(),
        r.0.coverage == r.1@.coverage,
{
    let batch = match combined {
        Some(b) => b,
        None => ObservationBatch::empty(RevisionId::new(input_revision.repository.as_str(), input_revision.commit.as_str())),
    };
    let report = IndexReport {
        revision: RevisionId::new(batch.revision.repository.as_str(), batch.revision.commit.as_str()),
        analyzers_run,
        symbols: batch.symbols.len(),
        dependencies: batch.dependencies.len(),
        coverage: batch.coverage,
    };
    (report, batch)
}

/// What an index run holds after the analyzers reported `reports`, in order:
/// an error once one report mismatched.
pub open spec fn run_state<S, D>(input: (Seq<char>, Seq<char>), reports: Seq<BatchView<S, D>>) -> Result<
    Option<BatchView<S, D>>,
    (),
>
    decreases reports.len(),
{
    if reports.len() == 0 {
        Ok(None)
    } else {
        match run_state(input, reports.drop_last()) {
            Err(()) => Err(()),
            Ok(c) => match gathered_view(c, input, reports.last()) {
                Some(v) => Ok(Some(v)),
                None => Err(()),
            },
        }
    }
}

/// An index run succeeds exactly when every analyzer reported the input's
/// revision, and what it gathered is of that revision.
pub proof fn law_run_needs_one_revision<S, D>(input: (Seq<char>, Seq<char>), reports: Seq<BatchView<S, D>>)
    ensures
        run_state(input, reports) is Ok <==> forall|i: int| 0 <= i < reports.len() ==> (#[trigger] reports[i]).revision == input,
        run_state(input, reports) matches Ok(Some(b)) ==> b.revision == input,
        run_state(input, reports) matches Ok(None) ==> reports.len() == 0,
    decreases reports.len(),
{
    if reports.len() > 0 {
        let earlier = reports.drop_last();
        law_run_needs_one_revision(input, earlier);
        assert forall|i: int| 0 <= i < earlier.len() implies #[trigger] earlier[i] == reports[i] by {}
        if run_state(input, reports) is Ok {
            assert forall|i: int| 0 <= i < reports.len() implies (#[trigger] reports[i]).revision == input by {
                if i < reports.len() - 1 {
                    assert(earlier[i] == reports[i]);
                }
            }
        }
        if forall|i: int| 0 <= i < reports.len() ==> (#[trigger] reports[i]).revision == input {
            assert forall|i: int| 0 <= i < earlier.len() implies (#[trigger] earlier[i]).revision == input by {
                assert(earlier[i] == reports[i]);
            }
            assert(reports[reports.len() - 1].revision == input);
        }
    }
}

} // verus!
