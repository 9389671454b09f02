use detamu::identity::SnapshotId;
use detamu::kernel::{AttributeValue, Attributes};
use detamu::lizard::{lizard_evidence, lizard_rows, parse_csv, safe_relative_path, LizardAnalyzer, UNIT_WEIGHT};
use detamu::numbers::count_bits;
use detamu::observation::AnalysisCoverage;
use detamu::model::{AnalysisInput, AnalyzerError, Artifact, ArtifactContent};
use detamu::model_code::RevisionId;
use detamu::syntax::analyze_contents;
use detamu::model_code::NodeKind;

fn input() -> AnalysisInput {
    AnalysisInput {
        snapshot: SnapshotId::new("code.repository:fixture", "abc"),
        sources: Vec::new(),
        changed_entities: None,
    }
}

fn artifacts() -> Vec<Artifact> {
    vec![Artifact {
        path: "src/lib.rs".to_owned(),
        content_id: "blob".to_owned(),
        media_type: None,
        attributes: Attributes {
            entries: vec![("language".to_owned(), AttributeValue::Text("rust".to_owned()))],
        },
    }]
}

#[test]
fn parses_lizard_csv_into_normalized_evidence() {
    let csv = b"NLOC,CCN,token,PARAM,length,location,file,function,long_name,start,end\n4,3,10,2,4,x,/tmp/lizard-fixture/src/lib.rs,greet,Greeter::greet(bool),4,7\n";
    let batch = parse_csv(&input(), "/tmp/lizard-fixture", &artifacts(), csv).expect("parse fixture");

    assert_eq!(batch.symbols.len(), 1);
    assert_eq!(batch.symbols[0].entity.label, "greet");
    assert!((f64::from_bits(batch.symbols[0].measurements[1].value) - 3.0).abs() < f64::EPSILON);
    assert_eq!(
        batch.symbols[0].measurements[1].evidence.as_ref().map(|evidence| evidence.observer.as_str()),
        Some("lizard")
    );

    let source = "struct Greeter;\nimpl Greeter {\n    // greets\n    fn greet(&self, ready: bool) -> u8 {\n        if ready { 1 } else { 0 }\n    }\n}\n";
    let syntax = analyze_contents(
        &RevisionId::new("fixture", "abc"),
        &vec![ArtifactContent { artifact: artifacts().remove(0), bytes: source.as_bytes().to_vec() }],
    )
    .expect("syntax analysis");
    let greet = syntax.symbols.iter().find(|entity| entity.entity.label == "Greeter::greet").expect("greet");
    assert_eq!(greet.entity.id.0, batch.symbols[0].entity.id.0);
    assert_eq!(syntax.dependencies[1].relation.id.0, batch.dependencies[0].relation.id.0);
}

#[test]
fn parses_headerless_lizard_csv() {
    let csv = b"4,3,10,2,4,x,/tmp/lizard-fixture/src/lib.rs,greet,Greeter::greet(bool),4,7\n";
    let batch = parse_csv(&input(), "/tmp/lizard-fixture", &artifacts(), csv).expect("parse headerless fixture");

    assert_eq!(batch.symbols.len(), 1);
    assert_eq!(batch.symbols[0].entity.label, "greet");
    assert!((f64::from_bits(batch.symbols[0].measurements[1].value) - 3.0).abs() < f64::EPSILON);
}

#[test]
fn lizard_observations_carry_identity_attributes_and_containment() {
    let csv = b"4,3,10,2,4,x,/tmp/lizard-fixture/src/lib.rs,greet,Greeter::greet(bool),4,7\n";
    let batch = parse_csv(&input(), "/tmp/lizard-fixture", &artifacts(), csv).expect("parse fixture");

    assert_eq!(batch.coverage, AnalysisCoverage::Partial);
    assert_eq!(batch.provenance[0].configuration_digest.as_deref(), Some("lizard-csv-v1"));
    let symbol = &batch.symbols[0];
    assert_eq!(symbol.snapshot.world.0, "code.repository:fixture");
    assert_eq!(symbol.snapshot.version.0, "abc");
    assert_eq!(symbol.entity.id.0, "symbol:src/lib.rs#greet@4");
    assert_eq!(symbol.entity.kind, "unknown");
    assert_eq!(symbol.entity.model.0, "code");
    assert_eq!(
        symbol.attributes.entries,
        vec![
            ("file_path".to_owned(), AttributeValue::Text("src/lib.rs".to_owned())),
            ("language".to_owned(), AttributeValue::Text("rust".to_owned())),
            ("line_start".to_owned(), AttributeValue::Unsigned(4)),
            ("lizard.line_end".to_owned(), AttributeValue::Unsigned(7)),
        ]
    );
    let names: Vec<&str> = symbol.measurements.iter().map(|m| m.name.as_str()).collect();
    assert_eq!(names, ["code.lines_of_code", "code.cyclomatic_complexity", "code.parameters"]);
    assert_eq!(symbol.measurements[0].value, 4.0f64.to_bits());
    assert_eq!(symbol.measurements[2].value, 2.0f64.to_bits());
    assert_eq!(symbol.measurements[0].unit.as_deref(), Some("count"));
    for measurement in &symbol.measurements {
        let evidence = measurement.evidence.as_ref().expect("evidence");
        assert_eq!(evidence.observer, "lizard");
        assert_eq!(evidence.confidence, 0.8f64.to_bits());
    }
    let contains = &batch.dependencies[0];
    assert_eq!(contains.relation.id.0, "file:src/lib.rs:contains:symbol:src/lib.rs#greet@4");
    assert_eq!(contains.relation.kind, "contains");
    assert_eq!(contains.relation.from.0, "file:src/lib.rs");
    assert_eq!(contains.relation.to.0, "symbol:src/lib.rs#greet@4");
    assert_eq!(contains.weight, 1.0f64.to_bits());
    assert_eq!(UNIT_WEIGHT, 1.0f64.to_bits());
}

#[test]
fn counts_are_encoded_as_their_double_bits() {
    for n in [0u32, 1, 2, 3, 7, 8, 1000, 65535, 1 << 31, u32::MAX] {
        assert_eq!(count_bits(u64::from(n)), f64::from(n).to_bits(), "count {n}");
    }
    for n in [1u64 << 40, (1u64 << 52) + 1, (1u64 << 53) - 1] {
        assert_eq!(count_bits(n), (n as f64).to_bits(), "whole number {n}");
    }
}

#[test]
fn lizard_evidence_normalizes_rust_symbols() {
    let csv = b"NLOC,CCN,token,PARAM,length,location,file,function,long_name,start,end\n4,3,10,2,4,x,/tmp/lizard-fixture/src/lib.rs,greet,Greeter::greet(bool),4,7\n";
    let evidence = lizard_evidence(&input(), "/tmp/lizard-fixture", &artifacts(), csv).expect("parse fixture");

    assert_eq!(evidence.symbols.len(), 1);
    let symbol = &evidence.symbols[0];
    assert_eq!(symbol.qualified_name, "greet");
    assert_eq!(symbol.row.complexity, 3);
    assert_eq!(symbol.row.nloc, 4);
    assert_eq!(symbol.row.parameters, 2);
    assert_eq!(symbol.row.path, "src/lib.rs");
    assert_eq!((symbol.row.start, symbol.row.end), (4, 7));
    assert_eq!(symbol.language, "rust");
    assert_eq!(symbol.kind, NodeKind::Unknown);
    assert_eq!(evidence.revision.repository.as_str(), "fixture");
    assert_eq!(evidence.revision.commit.as_str(), "abc");
}

#[test]
fn symbols_of_other_languages_keep_their_qualified_names() {
    let csv = b"4,3,10,2,4,x,/tmp/f/app.py,run,Service.run(self),1,9\n";
    let evidence = lizard_evidence(&input(), "/tmp/f", &[], csv).expect("parse python row");
    assert_eq!(evidence.symbols[0].language, "unknown");
    assert_eq!(evidence.symbols[0].qualified_name, "Service.run");
    assert_eq!(evidence.symbols[0].kind, NodeKind::Method);
    let batch = parse_csv(&input(), "/tmp/f", &[], csv).expect("parse python row");
    assert_eq!(batch.symbols[0].entity.kind, "method");
    assert_eq!(batch.symbols[0].entity.label, "Service.run");
}

#[test]
fn lizard_requires_a_code_repository_snapshot() {
    let other = AnalysisInput {
        snapshot: SnapshotId::new("tickets:fixture", "abc"),
        sources: Vec::new(),
        changed_entities: None,
    };
    match parse_csv(&other, "/tmp", &[], b"") {
        Err(AnalyzerError::Failed(m)) => assert_eq!(m, "snapshot is not a code repository"),
        other => panic!("unexpected {other:?}"),
    }
}

#[test]
fn rows_outside_the_temporary_directory_are_kept_as_given() {
    let rows = lizard_rows(b"1,1,1,0,1,x,/elsewhere/a.rs,f,f(),1,1\n", "/tmp/lizard").expect("rows");
    assert_eq!(rows.len(), 1);
    assert_eq!(rows[0].name, "f");
}

#[test]
fn malformed_numbers_are_reported() {
    assert!(lizard_rows(b"x,1,1,0,1,x,/tmp/a.rs,f,f(),1,1\n", "/tmp").is_err());
}

#[test]
fn artifact_paths_must_stay_inside_the_directory() {
    assert_eq!(safe_relative_path("src/lib.rs").ok(), Some("src/lib.rs"));
    match safe_relative_path("../etc/passwd") {
        Err(AnalyzerError::Failed(m)) => assert_eq!(m, "unsafe artifact path: ../etc/passwd"),
        other => panic!("unexpected {other:?}"),
    }
    assert!(safe_relative_path("/abs/path").is_err());
}

#[test]
fn lizard_runs_from_the_search_path_by_default() {
    assert_eq!(LizardAnalyzer::new(()).executable, "lizard");
    assert_eq!(LizardAnalyzer::with_executable((), "/opt/lizard").executable, "/opt/lizard");
}
