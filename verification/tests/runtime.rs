use detamu::runtime::{
    output_version, probe_status, ProbeOutcome, RuntimeInventory, RuntimeResolution, RuntimeResolver, RuntimeSource,
    RuntimeSpec, RuntimeStatus, RUNTIME_DIRECTORY_ENV, RUNTIME_SCHEMA_VERSION,
};

fn fixture_spec() -> RuntimeSpec {
    RuntimeSpec {
        id: "fixture".to_owned(),
        executable: "detamu-runtime-fixture".to_owned(),
        environment_override: "DETAMU_TEST_RUNTIME_OVERRIDE_UNSET".to_owned(),
        version_arguments: vec!["--version".to_owned()],
        tested_versions: vec!["fixture".to_owned()],
        optional: true,
        capabilities: vec!["testing".to_owned()],
    }
}

/// Runs a resolution, answering each probe from `answers` (by path).
fn resolve(resolver: &RuntimeResolver, spec: &RuntimeSpec, answers: &[(&str, ProbeOutcome)]) -> RuntimeStatus {
    let mut resolution = RuntimeResolution::start(resolver, spec, &spec.executable, None);
    while let Some(candidate) = resolution.next_probe() {
        let outcome = answers
            .iter()
            .find(|(path, _)| *path == candidate.executable)
            .map(|(_, outcome)| outcome.clone())
            .unwrap_or(ProbeOutcome::Failed { error: "No such file or directory (os error 2)".to_owned() });
        let status = probe_status(spec, &candidate.executable, candidate.source, &outcome);
        if let Some(done) = resolution.record(status) {
            return done;
        }
    }
    resolution.unresolved()
}

fn version(text: &str) -> ProbeOutcome {
    ProbeOutcome::Succeeded { stdout: format!("{text}\n").into_bytes(), stderr: Vec::new() }
}

#[test]
fn engine_sibling_precedes_managed_directory() {
    let resolver = RuntimeResolver::new()
        .with_engine_directory("/tmp/precedence/engine")
        .with_managed_directory("/tmp/precedence/managed");
    let status = resolve(
        &resolver,
        &fixture_spec(),
        &[
            ("/tmp/precedence/engine/detamu-runtime-fixture", version("sibling 1")),
            ("/tmp/precedence/managed/bin/detamu-runtime-fixture", version("managed 2")),
        ],
    );
    assert!(status.available);
    assert_eq!(status.source, Some(RuntimeSource::EngineSibling));
    assert_eq!(status.version.as_deref(), Some("sibling 1"));
}

#[test]
fn managed_directory_supports_data_dir_bin_layout() {
    let resolver = RuntimeResolver::new().with_managed_directory("/tmp/managed");
    let status = resolve(
        &resolver,
        &fixture_spec(),
        &[("/tmp/managed/bin/detamu-runtime-fixture", version("managed 1.2.3"))],
    );
    assert!(status.available);
    assert_eq!(status.source, Some(RuntimeSource::ManagedDirectory));
    assert_eq!(status.version.as_deref(), Some("managed 1.2.3"));
}

#[test]
fn candidates_are_probed_in_order_and_once() {
    let spec = fixture_spec();
    let resolver = RuntimeResolver::new()
        .with_engine_directory("/opt/engine")
        .with_managed_directory("/opt/engine/");
    let candidates = resolver.candidates(&spec, &spec.executable, None);
    let paths: Vec<(&str, RuntimeSource)> =
        candidates.iter().map(|c| (c.executable.as_str(), c.source)).collect();
    assert_eq!(
        paths,
        [
            ("/opt/engine/detamu-runtime-fixture", RuntimeSource::EngineSibling),
            ("/opt/engine/bin/detamu-runtime-fixture", RuntimeSource::ManagedDirectory),
            ("detamu-runtime-fixture", RuntimeSource::Path),
        ]
    );
}

#[test]
fn an_override_is_the_only_candidate_and_its_answer_stands() {
    let spec = fixture_spec();
    let resolver = RuntimeResolver::new().with_engine_directory("/opt/engine");
    let mut resolution = RuntimeResolution::start(&resolver, &spec, &spec.executable, Some("/custom/tool"));
    let candidate = resolution.next_probe().expect("override candidate");
    assert_eq!(candidate.executable, "/custom/tool");
    assert_eq!(candidate.source, RuntimeSource::Environment);
    let failed = probe_status(&spec, "/custom/tool", RuntimeSource::Environment, &ProbeOutcome::TimedOut);
    let done = resolution.record(failed).expect("an override answers");
    assert!(!done.available);
    assert_eq!(
        done.detail.as_deref(),
        Some("/custom/tool version probe timed out after 5 seconds")
    );
    assert!(resolution.next_probe().is_none());
}

#[test]
fn unresolved_runtimes_report_every_failure() {
    let spec = fixture_spec();
    let resolver = RuntimeResolver::new().with_engine_directory("/e");
    let status = resolve(
        &resolver,
        &spec,
        &[
            ("/e/detamu-runtime-fixture", ProbeOutcome::Exited { status: "exit status: 2".to_owned() }),
            ("detamu-runtime-fixture", ProbeOutcome::Failed { error: "not found".to_owned() }),
        ],
    );
    assert!(!status.available);
    assert_eq!(status.source, None);
    assert_eq!(status.executable, "detamu-runtime-fixture");
    assert_eq!(
        status.detail.as_deref(),
        Some("/e/detamu-runtime-fixture exited with exit status: 2; detamu-runtime-fixture: not found")
    );
}

#[test]
fn version_is_the_first_nonblank_line_of_stdout_or_else_stderr() {
    assert_eq!(output_version(b"\n  lizard 1.23.0  \nmore\n", b"ignored").as_deref(), Some("lizard 1.23.0"));
    assert_eq!(output_version(b"", b"\r\nrust-analyzer 1.0\r\n").as_deref(), Some("rust-analyzer 1.0"));
    assert_eq!(output_version(b"  \n\t\n", b"x"), None);
    assert_eq!(output_version(b"", b""), None);
}

#[test]
fn known_runtime_specs_and_inventory() {
    let lizard = RuntimeSpec::lizard();
    assert_eq!(lizard.id, "lizard");
    assert_eq!(lizard.environment_override, "DETAMU_LIZARD");
    assert_eq!(lizard.tested_versions, ["1.23.0"]);
    assert_eq!(lizard.capabilities, ["symbols", "metrics"]);
    let analyzer = RuntimeSpec::rust_analyzer();
    assert_eq!(analyzer.executable, "rust-analyzer");
    assert!(analyzer.tested_versions.is_empty());
    assert_eq!(analyzer.capabilities, ["references", "calls"]);
    assert_eq!(analyzer.duplicate(), analyzer);

    let inventory = RuntimeInventory::from_runtimes(Vec::new());
    assert_eq!(inventory.schema_version, RUNTIME_SCHEMA_VERSION);
    assert_eq!(inventory.runtime_directory_environment, RUNTIME_DIRECTORY_ENV);
    assert_eq!(RUNTIME_DIRECTORY_ENV, "DETAMU_RUNTIME_DIR");
}
