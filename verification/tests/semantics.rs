use detamu::analyzers::{LspError, Position, Range};
use detamu::lizard::dependency_relation;
use detamu::model::AnalyzerError;
use detamu::model_code::{symbol_id, RevisionId};
use detamu::observation::{AnalysisCoverage, DiagnosticSeverity};
use detamu::semantics::{
    ask_symbols_again, collect_document_symbols, request_failure, semantic_batch, survey_step, symbol_for_item, DocumentSymbol,
    EdgeSet, SemanticRequest, SemanticSymbol,
};

fn position(line: u64, character: u64) -> Position {
    Position { line: Some(line), character: Some(character) }
}

fn symbol(name: &str, kind: u64, line: u64, children: Vec<DocumentSymbol>) -> DocumentSymbol {
    DocumentSymbol {
        name: Some(name.to_owned()),
        kind: Some(kind),
        range: Some(Range { start: Some(position(line, 0)), end: Some(position(line + 2, 1)) }),
        selection_start: Some(position(line, 7)),
        children,
    }
}

#[test]
fn normalizes_document_symbols_to_acc_identity() {
    let workspace = "/tmp/detamu-ra-fixture";
    let path = "/tmp/detamu-ra-fixture/src/lib.rs";
    let symbols = vec![DocumentSymbol {
        name: Some("run".to_owned()),
        kind: Some(12),
        range: Some(Range { start: Some(position(2, 0)), end: Some(position(4, 1)) }),
        selection_start: Some(position(2, 7)),
        children: Vec::new(),
    }];
    let mut catalog = Vec::new();
    collect_document_symbols(&symbols, path, workspace, &mut catalog);
    assert_eq!(catalog.len(), 1);
    assert_eq!(catalog[0].path, "src/lib.rs");
    assert_eq!(catalog[0].id, symbol_id("src/lib.rs", "run", 3));
    assert!(catalog[0].callable);
}

#[test]
fn catalog_walks_children_and_skips_unreadable_symbols() {
    let workspace = "/tmp/ws";
    let path = "/tmp/ws/src/shapes.rs";
    let field = symbol("x", 8, 3, Vec::new());
    let method = symbol("area", 6, 4, Vec::new());
    let nameless = DocumentSymbol { name: None, ..symbol("hidden", 12, 9, vec![symbol("lost", 12, 10, Vec::new())]) };
    let shape = symbol("Shape", 23, 1, vec![field, method]);
    let mut catalog = Vec::new();
    collect_document_symbols(&vec![shape, nameless], path, workspace, &mut catalog);

    let names: Vec<&str> = catalog.iter().map(|entry| entry.name.as_str()).collect();
    assert_eq!(names, ["Shape", "area"]);
    assert!(!catalog[0].callable);
    assert!(catalog[1].callable);
    assert_eq!(catalog[1].uri, "file:///tmp/ws/src/shapes.rs");
    assert_eq!(catalog[1].id, "symbol:src/shapes.rs#area@5");
    assert_eq!(catalog[1].selection_start, position(4, 7));
}

#[test]
fn symbols_outside_the_workspace_keep_an_empty_path() {
    let mut catalog = Vec::new();
    collect_document_symbols(&vec![symbol("run", 12, 0, Vec::new())], "/elsewhere/lib.rs", "/tmp/ws", &mut catalog);
    assert_eq!(catalog[0].path, "");
    assert_eq!(catalog[0].id, "symbol:#run@1");
}

fn catalog_entry(name: &str, line: u64) -> SemanticSymbol {
    SemanticSymbol {
        id: format!("symbol:src/lib.rs#{name}@{}", line + 1),
        name: name.to_owned(),
        path: "src/lib.rs".to_owned(),
        uri: "file:///tmp/ws/src/lib.rs".to_owned(),
        selection_start: position(line, 3),
        range: Range { start: Some(position(line, 0)), end: Some(position(line + 1, 0)) },
        callable: true,
    }
}

#[test]
fn call_hierarchy_items_name_catalog_symbols() {
    let catalog = vec![catalog_entry("first", 0), catalog_entry("second", 4)];
    let uri = Some("file:///tmp/ws/src/lib.rs");
    assert_eq!(symbol_for_item(&catalog, uri, Some("second"), Some(position(4, 3)), "/tmp/ws").ok(), Some(Some(1)));
    assert_eq!(symbol_for_item(&catalog, uri, Some("second"), Some(position(4, 4)), "/tmp/ws").ok(), Some(None));
    assert_eq!(symbol_for_item(&catalog, uri, Some("second"), None, "/tmp/ws").ok(), Some(None));
    assert_eq!(symbol_for_item(&catalog, None, Some("second"), Some(position(4, 3)), "/tmp/ws").ok(), Some(None));
    match symbol_for_item(&catalog, Some("file:///other/lib.rs"), Some("second"), Some(position(4, 3)), "/tmp/ws") {
        Err(AnalyzerError::Failed(message)) => {
            assert_eq!(message, "path escaped semantic workspace: /other/lib.rs")
        }
        other => panic!("unexpected {other:?}"),
    }
}

#[test]
fn failed_requests_warn_unless_the_server_answered() {
    assert!(request_failure(&LspError::Server("no".to_owned()), "src/lib.rs", "references", "run").is_none());
    let warning = request_failure(&LspError::Timeout, "src/lib.rs", "references", "run").expect("warning");
    assert_eq!(warning.severity, DiagnosticSeverity::Warning);
    assert_eq!(warning.analyzer, "lsp.rust-analyzer");
    assert_eq!(warning.message, "references unavailable for run: language server request timed out");
    assert_eq!(warning.file_path.as_deref(), Some("src/lib.rs"));
}

#[test]
fn dependencies_join_their_ends_in_the_identifier() {
    let revision = RevisionId::new("fixture", "abc");
    let relation = dependency_relation(&revision, "calls", "symbol:a", "symbol:b");
    assert_eq!(relation.relation.id.0, "symbol:a:calls:symbol:b");
    assert_eq!(relation.relation.kind, "calls");
    assert_eq!(relation.relation.from.0, "symbol:a");
    assert_eq!(relation.relation.to.0, "symbol:b");
    assert_eq!(relation.weight, 1.0f64.to_bits());
    assert_eq!(relation.snapshot.world.0, "code.repository:fixture");
}

#[test]
fn semantic_batches_hold_each_edge_once_in_order() {
    let mut edges = EdgeSet::new();
    edges.insert("references", "symbol:b", "symbol:a");
    edges.insert("calls", "symbol:b", "symbol:a");
    edges.insert("references", "symbol:b", "symbol:a");
    edges.insert("calls", "symbol:a", "symbol:c");
    let revision = RevisionId::new("fixture", "abc");
    let batch = semantic_batch(&revision, &edges, Vec::new());
    let ids = batch.dependencies.iter().map(|d| d.relation.id.as_str().to_owned()).collect::<Vec<_>>();
    assert_eq!(
        ids,
        vec![
            "symbol:a:calls:symbol:c".to_owned(),
            "symbol:b:calls:symbol:a".to_owned(),
            "symbol:b:references:symbol:a".to_owned(),
        ]
    );
    assert!(matches!(batch.coverage, AnalysisCoverage::Partial));
    assert_eq!(batch.provenance.len(), 1);
    assert_eq!(batch.provenance[0].analyzer, "lsp.rust-analyzer");
    assert_eq!(batch.provenance[0].configuration_digest.as_deref(), Some("references-calls-v1"));
    assert!(batch.symbols.is_empty() && batch.diagnostics.is_empty());
}

#[test]
fn a_symbol_referring_to_itself_is_no_dependency() {
    let mut edges = EdgeSet::new();
    edges.insert_reference("symbol:a", "symbol:a");
    edges.insert_reference("symbol:b", "symbol:a");
    let batch = semantic_batch(&RevisionId::new("fixture", "abc"), &edges, Vec::new());
    assert_eq!(batch.dependencies.len(), 1);
    assert_eq!(batch.dependencies[0].relation.id.as_str(), "symbol:b:references:symbol:a");
}

#[test]
fn the_first_document_is_asked_again_until_symbols_come() {
    assert!(ask_symbols_again(true, 0, false));
    assert!(ask_symbols_again(true, 18, false));
    assert!(!ask_symbols_again(true, 19, false));
    assert!(!ask_symbols_again(true, 3, true));
    assert!(!ask_symbols_again(false, 0, false));
}

#[test]
fn a_survey_asks_references_then_calls_of_callable_symbols() {
    let mut constant = catalog_entry("LIMIT", 1);
    constant.callable = false;
    let catalog = vec![catalog_entry("greet", 3), constant, catalog_entry("main", 9)];
    let mut requests = Vec::new();
    let mut request = survey_step(&catalog, None);
    while request != SemanticRequest::Finish {
        requests.push(request);
        request = survey_step(&catalog, Some(request));
    }
    assert_eq!(
        requests,
        vec![
            SemanticRequest::References(0),
            SemanticRequest::Calls(0),
            SemanticRequest::References(1),
            SemanticRequest::References(2),
            SemanticRequest::Calls(2),
        ]
    );
    assert_eq!(survey_step(&[], None), SemanticRequest::Finish);
}
