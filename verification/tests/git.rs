use detamu::identity::SnapshotId;
use detamu::kernel::{AttributeValue, Attributes};
use detamu::model::{AnalysisInput, AnalyzerError, SourceError, SourceReference, WorldSource};
use detamu::model_code::{file_observation, GitOid, LanguageId, RecentFrequency, RepositoryId, RevisionId};
use detamu::git::{
    inventory_batch, check_snapshot, detect_language, git_outcome, git_source, normalize_remote, parse_history, parse_tree,
    recent_cutoff, repository_id, snapshot_timestamp, GitRepositorySource, RepositorySnapshot, GIT_SOURCE_KIND,
};

fn snapshot() -> RepositorySnapshot {
    RepositorySnapshot {
        root: "/work/fixture".to_owned(),
        repository: RepositoryId::new("remote:github.com/EntasisLabs/fixture"),
        commit: GitOid::new("abc123"),
        branch: Some("main".to_owned()),
        remote: None,
        dirty: true,
    }
}

#[test]
fn remotes_are_normalized_to_host_and_path() {
    assert_eq!(
        normalize_remote("git@github.com:EntasisLabs/fixture.git").as_deref(),
        Some("github.com/EntasisLabs/fixture")
    );
    assert_eq!(
        normalize_remote(" https://user@github.com/EntasisLabs/fixture/ ").as_deref(),
        Some("github.com/EntasisLabs/fixture")
    );
    assert_eq!(normalize_remote("   /  "), None);
}

#[test]
fn repository_ids_prefer_the_remote_and_else_hash_the_root() {
    assert_eq!(
        repository_id("/work/fixture", Some("git@github.com:EntasisLabs/fixture.git")).as_str(),
        "remote:github.com/EntasisLabs/fixture"
    );
    let local = repository_id("/work/fixture", None);
    let text = local.as_str();
    assert!(text.starts_with("local:"));
    assert_eq!(text.len(), "local:".len() + 32);
    assert!(text["local:".len()..].chars().all(|c| c.is_ascii_hexdigit() && !c.is_ascii_uppercase()));
    assert_ne!(local, repository_id("/work/other", None));
    assert_eq!(local, repository_id("/work/fixture", Some("  ")));
}

#[test]
fn languages_are_detected_from_extensions() {
    assert_eq!(detect_language("src/lib.rs").map(|l| l.as_str().to_owned()).as_deref(), Some("rust"));
    assert_eq!(detect_language("web/app.TS").map(|l| l.as_str().to_owned()).as_deref(), Some("typescript"));
    assert_eq!(detect_language("include/x.h").map(|l| l.as_str().to_owned()).as_deref(), Some("c"));
    assert!(detect_language("README.md").is_none());
    assert!(detect_language("Makefile").is_none());
}

#[test]
fn tree_records_become_sorted_supported_files() {
    let tree = b"100644 blob bbb 12\tsrc/lib.rs\x00100644 blob aaa -\tREADME.md\x00160000 commit ccc -\tvendor/x.rs\x00100644 blob ddd 7\tapp.ts\x00";
    let files = parse_tree(tree).expect("tree parses");
    assert_eq!(files.len(), 2);
    assert_eq!(files[0].path, "app.ts");
    assert_eq!(files[0].size, Some(7));
    assert_eq!(files[1].path, "src/lib.rs");
    assert_eq!(files[1].blob_oid, "bbb");
    assert_eq!(files[1].mode, "100644");
    assert_eq!(files[1].language.as_str(), "rust");
}

#[test]
fn malformed_tree_records_are_errors() {
    match parse_tree(b"100644 blob aaa 1 src/lib.rs\x00") {
        Err(SourceError::Failed(m)) => assert_eq!(m, "malformed Git tree record"),
        other => panic!("unexpected {other:?}"),
    }
    match parse_tree(b"100644 blob aaa x\tsrc/lib.rs\x00") {
        Err(SourceError::Failed(m)) => assert!(m.starts_with("invalid Git blob size: ")),
        other => panic!("unexpected {other:?}"),
    }
}

#[test]
fn history_follows_renames_and_counts_recent_commits() {
    let log = b"COMMIT\x00100\x002024-01-01T00:00:00Z\x00a@x\x00\nA\x00old.rs\x00\
COMMIT\x00200\x002024-01-02T00:00:00Z\x00b@x\x00\nR100\x00old.rs\x00new.rs\x00\
COMMIT\x00400\x002024-01-03T00:00:00Z\x00a@x\x00\nM\x00new.rs\x00";
    let histories = parse_history(log, 150).expect("history parses");
    assert_eq!(histories.len(), 1);
    let (path, counts) = &histories[0];
    assert_eq!(path, "new.rs");
    assert_eq!(counts.created_at, "2024-01-01T00:00:00Z");
    assert_eq!(counts.last_modified_at, "2024-01-03T00:00:00Z");
    assert_eq!(counts.total_commits, 3);
    assert_eq!(counts.contributors, 2);
    assert_eq!(counts.total_interval_seconds, 300);
    assert_eq!(counts.recent_commits, 2);
    assert_eq!(counts.recent_frequency, RecentFrequency::Low);
}

#[test]
fn history_rejects_a_change_before_any_commit() {
    match parse_history(b"M\x00a.rs\x00", 0) {
        Err(SourceError::Failed(m)) => assert_eq!(m, "malformed Git history: file change precedes commit"),
        other => panic!("unexpected {other:?}"),
    }
}

#[test]
fn timestamps_and_recent_windows() {
    assert_eq!(snapshot_timestamp(b" 1700000000\n").ok(), Some(1_700_000_000));
    assert!(snapshot_timestamp(b"soon").is_err());
    assert_eq!(recent_cutoff(8_000_000), 8_000_000 - 7_776_000);
    assert_eq!(recent_cutoff(i64::MIN + 5), i64::MIN);
}

#[test]
fn resolution_pins_the_snapshot_commit() {
    let resolution = GitRepositorySource::resolution(&snapshot());
    assert_eq!(resolution.input.snapshot.world.as_str(), "code.repository:remote:github.com/EntasisLabs/fixture");
    assert_eq!(resolution.input.snapshot.version.as_str(), "abc123");
    assert_eq!(resolution.input.sources.len(), 1);
    let source = &resolution.input.sources[0];
    assert_eq!(source.kind, GIT_SOURCE_KIND);
    assert_eq!(source.locator, "/work/fixture");
    assert_eq!(source.cursor.as_deref(), Some("abc123"));
    assert_eq!(
        resolution.metadata.get("branch"),
        Some(&AttributeValue::Text("main".to_owned()))
    );
    assert_eq!(resolution.metadata.get("remote"), Some(&AttributeValue::Null));
    assert_eq!(resolution.metadata.get("working_tree_dirty"), Some(&AttributeValue::Bool(true)));
    let descriptor = GitRepositorySource.descriptor();
    assert_eq!(descriptor.name, "git");
    assert_eq!(descriptor.model.as_str(), "code");
}

fn input(sources: Vec<SourceReference>) -> AnalysisInput {
    AnalysisInput {
        snapshot: SnapshotId::new("code.repository:remote:github.com/EntasisLabs/fixture", "abc123"),
        sources,
        changed_entities: None,
    }
}

fn source(kind: &str, cursor: Option<&str>) -> SourceReference {
    SourceReference {
        kind: kind.to_owned(),
        locator: "/work/fixture".to_owned(),
        cursor: cursor.map(str::to_owned),
        attributes: Attributes::new(),
    }
}

#[test]
fn analysis_needs_a_pinned_git_source_of_the_same_snapshot() {
    match git_source(&input(vec![source("fixture", None)])) {
        Err(AnalyzerError::Unavailable(m)) => assert_eq!(m, "Git repository source is missing"),
        other => panic!("unexpected {other:?}"),
    }
    match git_source(&input(vec![source(GIT_SOURCE_KIND, None)])) {
        Err(AnalyzerError::Failed(m)) => assert_eq!(m, "Git source cursor is missing"),
        other => panic!("unexpected {other:?}"),
    }
    let (index, commit) = git_source(&input(vec![source("fixture", None), source(GIT_SOURCE_KIND, Some("abc123"))]))
        .expect("git source");
    assert_eq!(index, 1);
    assert_eq!(commit, "abc123");
    assert!(check_snapshot(&snapshot(), &input(Vec::new())).is_ok());
    let mut moved = snapshot();
    moved.commit = GitOid::new("def456");
    match check_snapshot(&moved, &input(Vec::new())) {
        Err(AnalyzerError::Failed(m)) => assert_eq!(m, "Git source resolved to a different snapshot"),
        other => panic!("unexpected {other:?}"),
    }
}

#[test]
fn git_command_outcomes() {
    assert!(matches!(git_outcome(&["status"], false, Some(0), b""), Ok(true)));
    assert!(matches!(git_outcome(&["config", "--get", "x"], true, Some(1), b""), Ok(false)));
    match git_outcome(&["rev-parse", "--show-toplevel"], false, Some(128), b"fatal: not a git repository\n") {
        Err(SourceError::Failed(m)) => assert_eq!(m, "git rev-parse --show-toplevel: fatal: not a git repository"),
        other => panic!("unexpected {other:?}"),
    }
    assert!(matches!(git_outcome(&["status"], true, None, b""), Err(SourceError::Failed(_))));
}

#[test]
fn file_entities_carry_the_tracked_file_facts() {
    let revision = RevisionId::new("fixture", "abc");
    let o = file_observation(&revision, "src/lib.rs", "blob", "100644", Some(12), &LanguageId::new("rust"));
    assert_eq!(o.entity.id.as_str(), "file:src/lib.rs");
    assert_eq!(o.entity.kind, "file");
    assert_eq!(o.entity.label, "src/lib.rs");
    assert_eq!(o.snapshot.world.as_str(), "code.repository:fixture");
    assert_eq!(o.attributes.get("file.size_bytes"), Some(&AttributeValue::Unsigned(12)));
    assert_eq!(o.attributes.get("git.mode"), Some(&AttributeValue::Text("100644".to_owned())));
    let unknown = file_observation(&revision, "a.rs", "b", "100644", None, &LanguageId::new("rust"));
    assert_eq!(unknown.attributes.get("file.size_bytes"), Some(&AttributeValue::Null));
}

#[test]
fn inventory_batches_hold_one_file_entity_per_tracked_file() {
    let files = parse_tree(b"100644 blob a1 12\tsrc/lib.rs\0100644 blob b2 -\tREADME.md\0").expect("tree");
    let revision = RevisionId::new("fixture", "abc");
    let batch = inventory_batch(&revision, "/work/fixture", &files);
    assert_eq!(batch.symbols.len(), files.len());
    assert_eq!(batch.provenance[0].analyzer, "git.repository.inventory");
    assert!(batch.provenance[0].configuration_digest.is_none());
    assert_eq!(batch.provenance[0].source.as_deref(), Some("/work/fixture"));
    assert!(batch.dependencies.is_empty());
    let labels: Vec<&str> = batch.symbols.iter().map(|entity| entity.entity.label.as_str()).collect();
    let paths: Vec<&str> = files.iter().map(|file| file.path.as_str()).collect();
    assert_eq!(labels, paths);
    assert!(batch.symbols.iter().all(|entity| entity.entity.kind == "file" && entity.entity.id.0.starts_with("file:")));
    assert_eq!(batch.symbols[0].snapshot.world.0, "code.repository:fixture");
}
