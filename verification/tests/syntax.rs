use detamu::kernel::{AttributeValue, Attributes, EntityObservation};
use detamu::model::{Artifact, ArtifactContent};
use detamu::model_code::{RecentFrequency, RevisionId};
use detamu::observation::{AnalysisCoverage, DiagnosticSeverity};
use detamu::syntax::{analyze_contents, history_of, syntax_observations, SyntaxNode};

const SOURCE: &str = r"
pub struct Greeter;

impl Greeter {
    pub fn greet(&self, ready: bool) -> u8 {
        if ready && true { 1 } else { 0 }
    }
}

pub fn choose(value: u8) -> u8 {
    match value {
        0 => 1,
        _ => 2,
    }
}
";

fn text(name: &str, value: &str) -> (String, AttributeValue) {
    (name.to_owned(), AttributeValue::Text(value.to_owned()))
}

fn unsigned(name: &str, value: u64) -> (String, AttributeValue) {
    (name.to_owned(), AttributeValue::Unsigned(value))
}

fn artifact(path: &str, with_history: bool) -> Artifact {
    let mut entries = vec![text("language", "rust")];
    if with_history {
        entries.extend([
            text("git.created_at", "2024-01-01T00:00:00Z"),
            text("git.last_modified_at", "2024-01-11T00:00:00Z"),
            unsigned("git.total_commits", 2),
            unsigned("git.contributors", 1),
            ("git.average_days_between_changes".to_owned(), AttributeValue::Float(10.0f64.to_bits())),
            unsigned("git.recent_commits", 2),
            text("git.recent_frequency", "low"),
        ]);
    }
    Artifact {
        path: path.to_owned(),
        content_id: "fixture".to_owned(),
        media_type: Some("text/x-rust".to_owned()),
        attributes: Attributes { entries },
    }
}

fn content(path: &str, source: &str, with_history: bool) -> ArtifactContent {
    ArtifactContent { artifact: artifact(path, with_history), bytes: source.as_bytes().to_vec() }
}

fn measurement(entity: &EntityObservation, name: &str) -> Option<f64> {
    entity
        .measurements
        .iter()
        .find(|measurement| measurement.name == name)
        .map(|measurement| f64::from_bits(measurement.value))
}

fn attribute<'a>(entity: &'a EntityObservation, name: &str) -> Option<&'a AttributeValue> {
    entity.attributes.entries.iter().find(|(key, _)| key == name).map(|(_, value)| value)
}

fn labelled<'a>(entities: &'a [EntityObservation], label: &str) -> &'a EntityObservation {
    entities.iter().find(|entity| entity.entity.label == label).expect("labelled entity")
}

#[test]
fn emits_symbols_metrics_and_file_containment() {
    let revision = RevisionId::new("fixture", "abc123");
    let batch = analyze_contents(&revision, &vec![content("src/lib.rs", SOURCE, true)]).expect("analyze Rust fixture");

    let snapshot = batch.revision.snapshot();
    assert_eq!(snapshot.world.0, "code.repository:fixture");
    assert_eq!(snapshot.version.0, "abc123");
    assert_eq!(batch.symbols.len(), 3);
    assert_eq!(batch.dependencies.len(), 3);
    let greet = batch
        .symbols
        .iter()
        .find(|entity| entity.entity.label == "Greeter::greet")
        .expect("greet method");
    assert_eq!(greet.entity.kind, "method");
    assert_eq!(measurement(greet, "code.parameters"), Some(2.0));
    assert_eq!(measurement(greet, "code.cyclomatic_complexity"), Some(3.0));
    assert_eq!(measurement(greet, "git.total_commits"), Some(2.0));
    assert!(batch.dependencies.iter().all(|relation| {
        relation.relation.kind == "contains" && relation.relation.from.0 == "file:src/lib.rs"
    }));
}

#[test]
fn symbols_carry_kinds_lines_signatures_and_history() {
    let revision = RevisionId::new("fixture", "abc123");
    let batch = analyze_contents(&revision, &vec![content("src/lib.rs", SOURCE, true)]).expect("analyze");

    assert_eq!(batch.coverage, AnalysisCoverage::Partial);
    assert_eq!(batch.provenance[0].analyzer, "treesitter.rust");
    assert_eq!(batch.provenance[0].configuration_digest.as_deref(), Some("syntax-metrics-v1"));
    assert!(batch.diagnostics.is_empty());
    let labels: Vec<&str> = batch.symbols.iter().map(|entity| entity.entity.label.as_str()).collect();
    assert_eq!(labels, ["Greeter", "Greeter::greet", "choose"]);

    let greeter = labelled(&batch.symbols, "Greeter");
    assert_eq!(greeter.entity.kind, "type");
    assert_eq!(greeter.entity.id.0, "symbol:src/lib.rs#Greeter@2");
    assert_eq!(measurement(greeter, "code.cyclomatic_complexity"), Some(0.0));
    assert_eq!(measurement(greeter, "code.lines_of_code"), Some(1.0));

    let greet = labelled(&batch.symbols, "Greeter::greet");
    assert_eq!(attribute(greet, "line_start"), Some(&AttributeValue::Unsigned(5)));
    assert_eq!(attribute(greet, "line_end"), Some(&AttributeValue::Unsigned(7)));
    assert_eq!(attribute(greet, "qualified_name"), Some(&AttributeValue::Text("Greeter::greet".to_owned())));
    assert_eq!(
        attribute(greet, "signature"),
        Some(&AttributeValue::Text("pub fn greet(&self, ready: bool) -> u8".to_owned()))
    );
    assert_eq!(attribute(greet, "git.recent_frequency"), Some(&AttributeValue::Text("low".to_owned())));
    assert_eq!(measurement(greet, "code.lines_of_code"), Some(3.0));
    assert_eq!(measurement(greet, "git.contributors"), Some(1.0));
    assert_eq!(measurement(greet, "git.average_days_between_changes"), Some(10.0));

    let choose = labelled(&batch.symbols, "choose");
    assert_eq!(choose.entity.kind, "function");
    assert_eq!(measurement(choose, "code.parameters"), Some(1.0));
    assert_eq!(measurement(choose, "code.cyclomatic_complexity"), Some(3.0));

    let contains = &batch.dependencies[1];
    assert_eq!(contains.relation.to.0, "symbol:src/lib.rs#greet@5");
    assert_eq!(contains.weight, 1.0f64.to_bits());
}

#[test]
fn modules_traits_and_nested_scopes_qualify_names() {
    let source = "mod inner {\n    pub trait Shape {\n        fn area(&self) -> u32;\n    }\n    fn helper() { if true && false || true {} }\n}\n";
    let revision = RevisionId::new("fixture", "abc");
    let batch = analyze_contents(&revision, &vec![content("src/geometry/mod.rs", source, false)]).expect("analyze");

    let labels: Vec<&str> = batch.symbols.iter().map(|entity| entity.entity.label.as_str()).collect();
    assert_eq!(labels, ["geometry::inner", "geometry::inner::Shape", "geometry::inner::Shape::area", "geometry::inner::helper"]);
    assert_eq!(labelled(&batch.symbols, "geometry::inner").entity.kind, "module");
    assert_eq!(labelled(&batch.symbols, "geometry::inner::Shape").entity.kind, "trait");
    assert_eq!(labelled(&batch.symbols, "geometry::inner::Shape::area").entity.kind, "method");
    let helper = labelled(&batch.symbols, "geometry::inner::helper");
    assert_eq!(helper.entity.kind, "function");
    assert_eq!(measurement(helper, "code.cyclomatic_complexity"), Some(4.0));
    assert_eq!(measurement(helper, "git.total_commits"), None);
    assert_eq!(attribute(helper, "git.created_at"), None);
    assert_eq!(helper.measurements.len(), 3);
}

#[test]
fn syntax_errors_are_reported_and_parsing_goes_on() {
    let revision = RevisionId::new("fixture", "abc");
    let broken = content("src/broken.rs", "fn ok() {}\nfn broken( {\n", false);
    let fine = content("src/fine.rs", "fn fine() {}\n", false);
    let batch = analyze_contents(&revision, &vec![broken, fine]).expect("analyze");

    assert_eq!(batch.diagnostics.len(), 1);
    let diagnostic = &batch.diagnostics[0];
    assert_eq!(diagnostic.severity, DiagnosticSeverity::Warning);
    assert_eq!(diagnostic.analyzer, "treesitter.rust");
    assert_eq!(diagnostic.message, "Rust source contains syntax errors; observations may be incomplete");
    assert_eq!(diagnostic.file_path.as_deref(), Some("src/broken.rs"));
    assert!(batch.symbols.iter().any(|entity| entity.entity.label == "fine::fine"));
}

#[test]
fn history_needs_every_attribute() {
    let complete = artifact("src/lib.rs", true);
    let history = history_of(&complete.attributes).expect("complete history");
    assert_eq!(history.total_commits, 2);
    assert_eq!(history.average_days_bits, 10.0f64.to_bits());
    assert_eq!(history.recent_frequency, RecentFrequency::Low);

    let mut partial = artifact("src/lib.rs", true);
    partial.attributes.entries.retain(|(name, _)| name != "git.contributors");
    assert!(history_of(&partial.attributes).is_none());

    let mut whole_days = artifact("src/lib.rs", true);
    for (name, value) in &mut whole_days.attributes.entries {
        if name == "git.average_days_between_changes" {
            *value = AttributeValue::Unsigned(3);
        }
        if name == "git.recent_frequency" {
            *value = AttributeValue::Text("weekly".to_owned());
        }
    }
    assert!(history_of(&whole_days.attributes).is_none());
    for (name, value) in &mut whole_days.attributes.entries {
        if name == "git.recent_frequency" {
            *value = AttributeValue::Text("high".to_owned());
        }
    }
    let history = history_of(&whole_days.attributes).expect("whole-day history");
    assert_eq!(history.average_days_bits, 3.0f64.to_bits());
    assert_eq!(history.recent_frequency, RecentFrequency::High);
}

fn node(kind: &'static str, named: bool, field: Option<&'static str>, depth: u32, bytes: (usize, usize)) -> SyntaxNode {
    SyntaxNode { kind, named, erroneous: false, field, depth, rows: (0, 0), bytes }
}

#[test]
fn symbols_are_read_from_the_node_list() {
    let source = b"fn a() {}";
    let nodes = [
        node("source_file", true, None, 0, (0, 9)),
        node("function_item", true, None, 1, (0, 9)),
        node("fn", false, None, 2, (0, 2)),
        node("identifier", true, Some("name"), 2, (3, 4)),
        node("parameters", true, Some("parameters"), 2, (4, 6)),
        node("block", true, Some("body"), 2, (7, 9)),
    ];
    let revision = RevisionId::new("fixture", "abc");
    let (symbols, relations) = syntax_observations(&revision, "src/lib.rs", &None, source, &nodes);
    assert_eq!(symbols.len(), 1);
    assert_eq!(relations.len(), 1);
    let symbol = &symbols[0];
    assert_eq!(symbol.entity.label, "a");
    assert_eq!(symbol.entity.kind, "function");
    assert_eq!(symbol.entity.id.0, "symbol:src/lib.rs#a@1");
    assert_eq!(attribute(symbol, "signature"), Some(&AttributeValue::Text("fn a()".to_owned())));
    assert_eq!(measurement(symbol, "code.parameters"), Some(0.0));
    assert_eq!(measurement(symbol, "code.cyclomatic_complexity"), Some(1.0));
}

#[test]
fn the_walk_does_not_enter_anonymous_nodes() {
    let source = b"fn a() {}";
    let nodes = [
        node("source_file", true, None, 0, (0, 9)),
        node("wrapper", false, None, 1, (0, 9)),
        node("function_item", true, None, 2, (0, 9)),
        node("identifier", true, Some("name"), 3, (3, 4)),
    ];
    let revision = RevisionId::new("fixture", "abc");
    let (symbols, _) = syntax_observations(&revision, "src/lib.rs", &None, source, &nodes);
    assert!(symbols.is_empty());
}
