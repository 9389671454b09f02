use detamu::coverage::{
    apply_coverage, xml_events, CodeCoverageDeriver, CoverageError, CoverageFormat, CoverageReport, RangeCounts, ReadReport,
    XmlEvent,
};
use detamu::model_code::RevisionId;
use detamu::observation::{CodeBatch, DiagnosticSeverity, ObservationBatch};
use detamu::identity::{EntityId, ModelId, SnapshotId};
use detamu::kernel::{AttributeValue, Attributes, Entity, EntityObservation};

fn symbol(path: &str, start: u64, end: u64) -> EntityObservation {
    EntityObservation {
        snapshot: SnapshotId::new("code.repository:fixture", "abc"),
        entity: Entity {
            id: EntityId::new("node_fixture"),
            model: ModelId::new("code"),
            kind: "function".to_owned(),
            label: "fixture".to_owned(),
        },
        attributes: Attributes {
            entries: vec![
                ("file_path".to_owned(), AttributeValue::Text(path.to_owned())),
                ("line_start".to_owned(), AttributeValue::Unsigned(start)),
                ("line_end".to_owned(), AttributeValue::Unsigned(end)),
            ],
        },
        measurements: Vec::new(),
        scores: Vec::new(),
    }
}

fn batch_with_symbol(path: &str, start: u64, end: u64) -> CodeBatch {
    let mut batch = ObservationBatch::empty(RevisionId::new("fixture", "abc"));
    batch.symbols.push(symbol(path, start, end));
    batch
}

fn derive(deriver: &CodeCoverageDeriver, batch: &mut CodeBatch) {
    let plan = deriver.plan(&batch.symbols);
    let bits = plan
        .matches
        .iter()
        .map(|(_, counts)| {
            let (line, branch) = ratios(counts);
            (line.to_bits(), branch.to_bits())
        })
        .collect::<Vec<_>>();
    apply_coverage(&plan, &bits, batch);
}

fn assert_ratio(batch: &CodeBatch, name: &str, expected: f64) {
    let measurement = batch.symbols[0]
        .measurements
        .iter()
        .find(|measurement| measurement.name == name)
        .expect("coverage measurement");
    assert!((f64::from_bits(measurement.value) - expected).abs() < f64::EPSILON);
    assert_eq!(measurement.evidence.as_ref().map(|evidence| evidence.observer.as_str()), Some("code.coverage"));
}

fn ratios(counts: &RangeCounts) -> (f64, f64) {
    let line = f64::from(counts.covered_lines) / f64::from(counts.lines);
    let branch = if counts.branches_total == 0 {
        1.0
    } else {
        counts.branches_covered as f64 / counts.branches_total as f64
    };
    (line, branch)
}

#[test]
fn derives_symbol_ratios_from_lcov_lines_and_branches() {
    let report = CoverageReport::new(
        CoverageFormat::Lcov,
        "lcov.info",
        b"TN:\nSF:/workspace/src/lib.rs\nDA:10,1\nDA:11,0\nDA:12,2\nBRDA:11,0,0,1\nBRDA:11,0,1,0\nend_of_record\n",
    );
    let deriver = CodeCoverageDeriver::from_reports(&vec![report]).expect("parse LCOV");
    let mut batch = batch_with_symbol("src/lib.rs", 10, 13);

    let plan = deriver.plan(&batch.symbols);
    assert_eq!(plan.matches.len(), 1);
    let counts = &plan.matches[0].1;
    assert_eq!((counts.covered_lines, counts.lines), (2, 3));
    assert_eq!((counts.branches_covered, counts.branches_total), (1, 2));

    derive(&deriver, &mut batch);

    assert_ratio(&batch, "test.line_coverage", 2.0 / 3.0);
    assert_ratio(&batch, "test.branch_coverage", 0.5);
    assert_eq!(batch.provenance[0].analyzer, "code.coverage");
    assert_eq!(batch.provenance[0].source.as_deref(), Some("lcov.info"));
    assert!(batch.diagnostics.is_empty());
}

#[test]
fn derives_symbol_ratios_from_cobertura_and_normalizes_paths() {
    let report = CoverageReport::new(
        CoverageFormat::Cobertura,
        "coverage.xml",
        br#"<?xml version="1.0"?>
<coverage>
  <packages>
    <package name="fixture">
      <classes>
        <class name="Service" filename="src/service.cs">
          <lines>
            <line number="5" hits="1" branch="true" condition-coverage="50% (1/2)"/>
            <line number="6" hits="0" branch="false"/>
          </lines>
        </class>
      </classes>
    </package>
  </packages>
</coverage>"#,
    );
    let deriver = CodeCoverageDeriver::from_reports(&vec![report]).expect("parse Cobertura");
    let mut batch = batch_with_symbol(r"src\service.cs", 5, 6);

    derive(&deriver, &mut batch);

    assert_ratio(&batch, "test.line_coverage", 0.5);
    assert_ratio(&batch, "test.branch_coverage", 0.5);
}

#[test]
fn condition_coverage_above_the_total_is_refused() {
    let report = CoverageReport::new(
        CoverageFormat::Cobertura,
        "coverage.xml",
        br#"<coverage><class filename="src/lib.rs"><lines><line number="5" hits="1" condition-coverage="150% (3/2)"/></lines></class></coverage>"#,
    );
    match CodeCoverageDeriver::from_reports(&vec![report]) {
        Err(CoverageError::Invalid { message, .. }) => {
            assert_eq!(message, "invalid condition coverage: 150% (3/2)")
        }
        other => panic!("unexpected {:?}", other.is_ok()),
    }
}

#[test]
fn unmatched_report_files_become_info_diagnostics() {
    let report = CoverageReport::new(CoverageFormat::Lcov, "lcov.info", b"SF:src/a.rs\nDA:1,1\nend_of_record\n");
    let deriver = CodeCoverageDeriver::from_reports(&vec![report]).expect("parse LCOV");
    let mut batch = batch_with_symbol("src/b.rs", 1, 1);

    derive(&deriver, &mut batch);

    assert!(batch.symbols[0].measurements.is_empty());
    assert_eq!(batch.diagnostics.len(), 1);
    assert_eq!(batch.diagnostics[0].severity, DiagnosticSeverity::Info);
    assert_eq!(batch.diagnostics[0].message, "coverage file did not match any measured code entity");
    assert_eq!(batch.diagnostics[0].file_path.as_deref(), Some("src/a.rs"));
    assert_eq!(batch.provenance.len(), 1);
}

#[test]
fn reports_are_recognized_by_their_contents() {
    let lcov = CoverageReport::from_contents("a.info", b"  SF:x\n".to_vec()).expect("lcov");
    assert_eq!(lcov.format, CoverageFormat::Lcov);
    let xml = CoverageReport::from_contents("c.xml", b"<?xml version='1.0'?><coverage/>".to_vec()).expect("xml");
    assert_eq!(xml.format, CoverageFormat::Cobertura);
    match CoverageReport::from_contents("notes.txt", b"hello".to_vec()) {
        Err(CoverageError::UnknownFormat(path)) => assert_eq!(path, "notes.txt"),
        other => panic!("unexpected {other:?}"),
    }
}

#[test]
fn unmatched_report_files_are_listed() {
    let report = CoverageReport::new(CoverageFormat::Lcov, "lcov.info", b"SF:src/a.rs\nDA:1,1\nend_of_record\n");
    let deriver = CodeCoverageDeriver::from_reports(&vec![report]).expect("parse LCOV");
    let plan = deriver.plan(&[symbol("src/b.rs", 1, 1)]);
    assert!(plan.matches.is_empty());
    assert_eq!(plan.unmatched_files, ["src/a.rs"]);
}

#[test]
fn xml_reading_stops_at_the_first_error() {
    let events = xml_events(b"<a><b x='1'/></c>");
    assert!(matches!(events.last(), Some(XmlEvent::Failed(_))));
    assert!(matches!(events[0], XmlEvent::Start(_)));
    assert!(matches!(events[1], XmlEvent::Empty(_)));
    let whole = xml_events(b"<a/>");
    assert_eq!(whole.len(), 1);
}

#[test]
fn malformed_cobertura_values_are_errors() {
    let report = CoverageReport::new(
        CoverageFormat::Cobertura,
        "bad.xml",
        br#"<coverage><class filename="a.cs"><line number="x" hits="1"/></class></coverage>"#,
    );
    match CodeCoverageDeriver::from_reports(&vec![report]) {
        Err(CoverageError::Invalid { format, report_source, message }) => {
            assert_eq!(format, "cobertura");
            assert_eq!(report_source, "bad.xml");
            assert!(message.starts_with("invalid line number: "));
        }
        other => panic!("unexpected {:?}", other.is_ok()),
    }
}

#[test]
fn combining_reports_fails_with_the_first_report_that_does_not_parse() {
    let good = CoverageReport::new(CoverageFormat::Lcov, "good.info", b"SF:src/lib.rs\nDA:1,1\nend_of_record\n");
    let first_bad = CoverageReport::new(CoverageFormat::Lcov, "first.info", b"DA:1,1\n");
    let second_bad = CoverageReport::new(CoverageFormat::Lcov, "second.info", b"DA:2,1\n");
    match CodeCoverageDeriver::from_reports(&vec![good.clone(), first_bad, second_bad]) {
        Err(CoverageError::Invalid { report_source, .. }) => assert_eq!(report_source, "first.info"),
        _ => panic!("a report that does not parse refuses the whole set"),
    }
    assert!(CodeCoverageDeriver::from_reports(&vec![good]).is_ok());
}

fn read(path: &str, contents: Result<&[u8], &str>) -> ReadReport {
    ReadReport { path: path.to_owned(), contents: contents.map(|bytes| bytes.to_vec()).map_err(|error| error.to_owned()) }
}

#[test]
fn files_read_in_order_refuse_the_set_at_the_first_unusable_one() {
    let lcov: &[u8] = b"SF:src/lib.rs\nDA:1,1\nend_of_record\n";
    match CodeCoverageDeriver::from_reads(vec![
        read("a.info", Ok(lcov)),
        read("missing.info", Err("No such file or directory")),
        read("notes.txt", Ok(b"plain text")),
    ]) {
        Err(CoverageError::Read { path, error }) => {
            assert_eq!(path, "missing.info");
            assert_eq!(error, "No such file or directory");
        },
        _ => panic!("the unreadable file comes first"),
    }
    match CodeCoverageDeriver::from_reads(vec![read("a.info", Ok(lcov)), read("notes.txt", Ok(b"plain text"))]) {
        Err(CoverageError::UnknownFormat(path)) => assert_eq!(path, "notes.txt"),
        _ => panic!("text that is neither LCOV nor Cobertura is refused"),
    }
    let deriver = CodeCoverageDeriver::from_reads(vec![read("a.info", Ok(lcov))]).expect("one LCOV report");
    assert_eq!(deriver.sources, vec!["a.info".to_owned()]);
    assert!(deriver.lcov && !deriver.cobertura);
}
