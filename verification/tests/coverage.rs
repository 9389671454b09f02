use detamu::coverage::{CodeCoverageDeriver, CoverageFormat, CoverageReport};

#[test]
fn rejects_malformed_coverage_records() {
    let report = CoverageReport::new(
        CoverageFormat::Lcov,
        "broken.info",
        b"SF:src/lib.rs\nDA:not-a-line,1\n",
    );

    assert!(CodeCoverageDeriver::from_reports(&vec![report]).is_err());
}
