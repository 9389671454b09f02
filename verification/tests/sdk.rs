use detamu::model::AnalyzerError;
use detamu::model_code::RevisionId;
use detamu::observation::{AnalysisCoverage, AnalyzerProvenance, ObservationBatch};
use detamu::sdk::{finish, gather, DetamuError};
use detamu::store::StoreError;

type Batch = ObservationBatch<&'static str, (&'static str, &'static str)>;

fn batch(repository: &str, commit: &str, coverage: AnalysisCoverage, symbols: &[&'static str]) -> Batch {
    let mut b = Batch::empty(RevisionId::new(repository, commit));
    b.coverage = coverage;
    b.symbols = symbols.to_vec();
    b.provenance.push(AnalyzerProvenance {
        analyzer: format!("{repository}-{}", symbols.len()),
        version: "1".to_owned(),
        configuration_digest: None,
        source: None,
    });
    b
}

#[test]
fn embedded_sdk_runs_registered_analyzers() {
    let revision = RevisionId::new("repo", "abc123");
    let mut empty = Batch::empty(RevisionId::new("repo", "abc123"));
    empty.coverage = AnalysisCoverage::Complete;
    let combined = gather(None, &revision, empty).expect("index should succeed");
    let (report, stored) = finish(Some(combined), &revision, 1);

    assert_eq!(report.revision, revision);
    assert_eq!(report.analyzers_run, 1);
    assert_eq!(report.coverage, AnalysisCoverage::Complete);
    assert_eq!(stored.coverage, AnalysisCoverage::Complete);
}

#[test]
fn an_index_run_without_analyzers_stores_an_empty_batch() {
    let revision = RevisionId::new("repo", "abc123");
    let (report, stored) = finish::<&str, (&str, &str)>(None, &revision, 0);
    assert_eq!(report.revision, revision);
    assert_eq!(report.analyzers_run, 0);
    assert_eq!(report.symbols, 0);
    assert_eq!(report.coverage, AnalysisCoverage::Unavailable);
    assert!(stored.provenance.is_empty());
}

#[test]
fn merged_batches_keep_every_observation_in_order() {
    let revision = RevisionId::new("repo", "c1");
    let first = gather(None, &revision, batch("repo", "c1", AnalysisCoverage::Complete, &["a", "b"])).expect("first");
    let both = gather(Some(first), &revision, batch("repo", "c1", AnalysisCoverage::Unavailable, &["c"])).expect("second");
    assert_eq!(both.symbols, ["a", "b", "c"]);
    assert_eq!(both.provenance.len(), 2);
    assert_eq!(both.coverage, AnalysisCoverage::Partial);
    let (report, _) = finish(Some(both), &revision, 2);
    assert_eq!(report.symbols, 3);
    assert_eq!(report.dependencies, 0);
    assert_eq!(report.coverage, AnalysisCoverage::Partial);
}

#[test]
fn a_report_of_another_revision_fails_the_run() {
    let revision = RevisionId::new("repo", "c1");
    assert!(matches!(
        gather(None, &revision, batch("repo", "c2", AnalysisCoverage::Complete, &[])),
        Err(DetamuError::RevisionMismatch)
    ));
    let first = gather(None, &revision, batch("repo", "c1", AnalysisCoverage::Complete, &[])).expect("first");
    assert!(matches!(
        gather(Some(first), &revision, batch("other", "c1", AnalysisCoverage::Complete, &[])),
        Err(DetamuError::RevisionMismatch)
    ));
}

#[test]
fn merge_refuses_another_revision_and_changes_nothing() {
    let mut a = batch("repo", "c1", AnalysisCoverage::Complete, &["a"]);
    assert!(a.merge(batch("repo", "c2", AnalysisCoverage::Partial, &["b"])).is_err());
    assert_eq!(a.symbols, ["a"]);
    assert_eq!(a.coverage, AnalysisCoverage::Complete);
}

#[test]
fn errors_describe_themselves_like_their_causes() {
    assert_eq!(
        DetamuError::RevisionMismatch.message(),
        "analyzer returned observations for a different revision"
    );
    assert_eq!(
        DetamuError::from(AnalyzerError::Failed("boom".to_owned())).message(),
        "analysis failed: boom"
    );
    assert_eq!(
        DetamuError::from(StoreError::Backend("down".to_owned())).message(),
        "store operation failed: down"
    );
}
