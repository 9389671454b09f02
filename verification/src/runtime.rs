//! Discovery of optional analyzer executables: where each is looked for, in
//! which order, and what a version probe's outcome says about it.
//!
//! Runtimes are found and reported, never downloaded, updated or removed.
use vstd::prelude::*;

use crate::commands::texts;
use crate::coverage::{join_strings, joined};
use crate::numbers::{decimal_digits, format_u64};
use crate::text::{append_chars, chars_of, decode_lossy, lines, lossy_text, split_lines, string_of, trim, trimmed};

verus! {

/// The version of the inventory's layout.
pub const RUNTIME_SCHEMA_VERSION: u32 = 1;

/// The environment variable that names the managed runtime directory.
pub const RUNTIME_DIRECTORY_ENV: &'static str = "DETAMU_RUNTIME_DIR";

/// How long a version probe may run.
pub const PROBE_TIMEOUT_SECONDS: u64 = 5;

/// An optional executable that analyzers can use.
#[derive(Debug, Clone, PartialEq, Eq)]
pub struct RuntimeSpec {
    pub id: String,
    pub executable: String,
    pub environment_override: String,
    pub version_arguments: Vec<String>,
    pub tested_versions: Vec<String>,
    pub optional: bool,
    pub capabilities: Vec<String>,
}

pub ghost struct RuntimeSpecView {
    pub id: Seq<char>,
    pub executable: Seq<char>,
    pub environment_override: Seq<char>,
    pub version_arguments: Seq<Seq<char>>,
    pub tested_versions: Seq<Seq<char>>,
    pub optional: bool,
    pub capabilities: Seq<Seq<char>>,
}

impl View for RuntimeSpec {
    type V = RuntimeSpecView;

    open spec fn view(&self) -> RuntimeSpecView {
        RuntimeSpecView {
            id: self.id@,
            executable: self.executable@,
            environment_override: self.environment_override@,
            version_arguments: texts(self.version_arguments@),
            tested_versions: texts(self.tested_versions@),
            optional: self.optional,
            capabilities: texts(self.capabilities@),
        }
    }
}

/// A copy of a list of strings.
pub fn copy_strings(v: &Vec<String>) -> (r: Vec<String>)
    ensures
        texts(r@) == texts(v@),
{
    let mut r: Vec<String> = Vec::new();
    let mut i: usize = 0;
    while i < v.len()
        invariant
            i <= v@.len(),
            texts(r@) == texts(v@.take(i as int)),
        decreases v@.len() - i,
    {
        r.push(v[i].clone());
        assert(texts(v@.take(i + 1)) =~= texts(v@.take(i as int)).push(v@[i as int]@));
        i = i + 1;
    }
    assert(v@.take(i as int) =~= v@);
    r
}

/// A vector holding the given texts, in order.
fn owned_texts(items: &[&str]) -> (r: Vec<String>)
    ensures
        r@.len() == items@.len(),
        forall|i: int| 0 <= i < items@.len() ==> #[trigger] r@[i]@ == items@[i]@,
{
    let mut r: Vec<String> = Vec::new();
    let mut i: usize = 0;
    while i < items.len()
        invariant
            i <= items@.len(),
            r@.len() == i,
            forall|k: int| 0 <= k < i ==> #[trigger] r@[k]@ == items@[k]@,
        decreases items@.len() - i,
    {
        r.push(items[i].to_owned());
        i = i + 1;
    }
    r
}

impl RuntimeSpec {
    /// The Lizard metrics tool.
    pub fn lizard() -> (s: Self)
        ensures
            s.id@ == "lizard"@,
            s.executable@ == "lizard"@,
            s.environment_override@ == "DETAMU_LIZARD"@,
            texts(s.version_arguments@) == seq!["--version"@],
            texts(s.tested_versions@) == seq!["1.23.0"@],
            s.optional,
            texts(s.capabilities@) == seq!["symbols"@, "metrics"@],
    {
        let version_arguments = owned_texts(&["--version"]);
        let tested_versions = owned_texts(&["1.23.0"]);
        let capabilities = owned_texts(&["symbols", "metrics"]);
        let s = RuntimeSpec {
            id: "lizard".to_owned(),
            executable: "lizard".to_owned(),
            environment_override: "DETAMU_LIZARD".to_owned(),
            version_arguments,
            tested_versions,
            optional: true,
            capabilities,
        };
        assert(texts(s.version_arguments@) =~= seq!["--version"@]);
        assert(texts(s.tested_versions@) =~= seq!["1.23.0"@]);
        assert(texts(s.capabilities@) =~= seq!["symbols"@, "metrics"@]);
        s
    }

    /// The rust-analyzer language server.
    pub fn rust_analyzer() -> (s: Self)
        ensures
            s.id@ == "rust-analyzer"@,
            s.executable@ == "rust-analyzer"@,
            s.environment_override@ == "DETAMU_RUST_ANALYZER"@,
            texts(s.version_arguments@) == seq!["--version"@],
            texts(s.tested_versions@) == Seq::<Seq<char>>::empty(),
            s.optional,
            texts(s.capabilities@) == seq!["references"@, "calls"@],
    {
        let version_arguments = owned_texts(&["--version"]);
        let capabilities = owned_texts(&["references", "calls"]);
        let s = RuntimeSpec {
            id: "rust-analyzer".to_owned(),
            executable: "rust-analyzer".to_owned(),
            environment_override: "DETAMU_RUST_ANALYZER".to_owned(),
            version_arguments,
            tested_versions: Vec::new(),
            optional: true,
            capabilities,
        };
        assert(texts(s.version_arguments@) =~= seq!["--version"@]);
        assert(texts(s.tested_versions@) =~= Seq::<Seq<char>>::empty());
        assert(texts(s.capabilities@) =~= seq!["references"@, "calls"@]);
        s
    }

    /// A copy of this description.
    pub fn duplicate(&self) -> (r: Self)
        ensures
            r@ == self@,
    {
        RuntimeSpec {
            id: self.id.clone(),
            executable: self.executable.clone(),
            environment_override: self.environment_override.clone(),
            version_arguments: copy_strings(&self.version_arguments),
            tested_versions: copy_strings(&self.tested_versions),
            optional: self.optional,
            capabilities: copy_strings(&self.capabilities),
        }
    }
}

/// Where a runtime was found.
#[derive(Debug, Clone, Copy, PartialEq, Eq)]
pub enum RuntimeSource {
    Environment,
    EngineSibling,
    ManagedDirectory,
    Path,
}

/// Where the directories are that a resolver searches.
#[derive(Debug, Clone)]
pub struct RuntimeResolver {
    pub engine_directory: Option<String>,
    pub managed_directory: Option<String>,
}

pub open spec fn text_of(o: Option<String>) -> Option<Seq<char>> {
    match o {
        Some(s) => Some(s@),
        None => None,
    }
}

impl RuntimeResolver {
    /// A resolver that searches only the executable search path.
    pub fn new() -> (r: Self)
        ensures
            r.engine_directory is None,
            r.managed_directory is None,
    {
        RuntimeResolver { engine_directory: None, managed_directory: None }
    }

    /// The resolver that also looks beside the engine's own executable.
    pub fn with_engine_directory(self, directory: &str) -> (r: Self)
        ensures
            text_of(r.engine_directory) == Some(directory@),
            text_of(r.managed_directory) == text_of(self.managed_directory),
    {
        RuntimeResolver { engine_directory: Some(directory.to_owned()), managed_directory: self.managed_directory }
    }

    /// The resolver that also looks in a managed runtime directory.
    pub fn with_managed_directory(self, directory: &str) -> (r: Self)
        ensures
            text_of(r.managed_directory) == Some(directory@),
            text_of(r.engine_directory) == text_of(self.engine_directory),
    {
        RuntimeResolver { engine_directory: self.engine_directory, managed_directory: Some(directory.to_owned()) }
    }
}

// ---------------------------------------------------------------------------
// Paths
// ---------------------------------------------------------------------------
/// What `Path::join` gives for a directory and a relative name, as text.
pub uninterp spec fn path_joined(base: Seq<char>, name: Seq<char>) -> Seq<char>;

/// `Path::join`, with the joined path read back as text.
#[verifier::external_body]
fn join_path(base: &str, name: &str) -> (r: String)
    ensures
        r@ == path_joined(base@, name@),
{
    std::path::Path::new(base).join(name).to_string_lossy().into_owned()
}

/// Whether `Path`'s `==` holds for two paths (it compares their components).
pub uninterp spec fn path_equal(a: Seq<char>, b: Seq<char>) -> bool;

/// `Path`'s `==`.
#[verifier::external_body]
fn same_path(a: &str, b: &str) -> (r: bool)
    ensures
        r == path_equal(a@, b@),
{
    std::path::Path::new(a) == std::path::Path::new(b)
}

/// A place to look for a runtime.
#[derive(Debug, Clone)]
pub struct Candidate {
    pub executable: String,
    pub source: RuntimeSource,
}

pub open spec fn candidate_view(c: Candidate) -> (Seq<char>, RuntimeSource) {
    (c.executable@, c.source)
}

pub open spec fn candidate_views(c: Seq<Candidate>) -> Seq<(Seq<char>, RuntimeSource)> {
    c.map_values(|x: Candidate| candidate_view(x))
}

/// Every place that is looked in, in order: beside the engine, in the managed
/// directory's `bin/` and then in the managed directory itself, and last on
/// the executable search path.
pub open spec fn all_candidates(
    engine: Option<Seq<char>>,
    managed: Option<Seq<char>>,
    executable: Seq<char>,
    file_name: Seq<char>,
) -> Seq<(Seq<char>, RuntimeSource)> {
    (match engine {
        Some(d) => seq![(path_joined(d, file_name), RuntimeSource::EngineSibling)],
        None => Seq::empty(),
    }) + (match managed {
        Some(d) => seq![
            (path_joined(path_joined(d, "bin"@), file_name), RuntimeSource::ManagedDirectory),
            (path_joined(d, file_name), RuntimeSource::ManagedDirectory),
        ],
        None => Seq::empty(),
    }) + seq![(executable, RuntimeSource::Path)]
}

/// Whether the path of `c[i]` equals the path of an earlier entry.
pub open spec fn seen_before(c: Seq<(Seq<char>, RuntimeSource)>, i: int) -> bool {
    exists|j: int| 0 <= j < i && path_equal(#[trigger] c[j].0, c[i].0)
}

/// The entries whose path was not met earlier in the list.
pub open spec fn first_occurrences(c: Seq<(Seq<char>, RuntimeSource)>) -> Seq<(Seq<char>, RuntimeSource)>
    decreases c.len(),
{
    if c.len() == 0 {
        Seq::empty()
    } else {
        let earlier = first_occurrences(c.drop_last());
        if seen_before(c, c.len() - 1) {
            earlier
        } else {
            earlier.push(c.last())
        }
    }
}

/// The places a resolution probes: only the override when one is given, else
/// every place once.
pub open spec fn probe_order(
    resolver: RuntimeResolver,
    spec: RuntimeSpecView,
    file_name: Seq<char>,
    environment_override: Option<Seq<char>>,
) -> Seq<(Seq<char>, RuntimeSource)> {
    match environment_override {
        Some(p) => seq![(p, RuntimeSource::Environment)],
        None => first_occurrences(
            all_candidates(
                text_of(resolver.engine_directory),
                text_of(resolver.managed_directory),
                spec.executable,
                file_name,
            ),
        ),
    }
}

/// `c` without the entries whose path an earlier entry already has.
fn first_paths(c: &Vec<Candidate>) -> (r: Vec<Candidate>)
    ensures
        candidate_views(r@) == first_occurrences(candidate_views(c@)),
{
    let ghost cv = candidate_views(c@);
    let mut r: Vec<Candidate> = Vec::new();
    let mut i: usize = 0;
    while i < c.len()
        invariant
            i <= c@.len(),
            cv == candidate_views(c@),
            candidate_views(r@) == first_occurrences(cv.take(i as int)),
        decreases c@.len() - i,
    {
        let ghost t = cv.take(i + 1);
        assert(t.drop_last() =~= cv.take(i as int));
        let mut seen = false;
        let mut j: usize = 0;
        while j < i
            invariant
                j <= i < c@.len(),
                cv == candidate_views(c@),
                t == cv.take(i + 1),
                seen <==> exists|k: int| 0 <= k < j && path_equal(#[trigger] t[k].0, t[i as int].0),
            decreases i - j,
        {
            assert(t[j as int].0 == c@[j as int].executable@);
            assert(t[i as int].0 == c@[i as int].executable@);
            if same_path(c[j].executable.as_str(), c[i].executable.as_str()) {
                seen = true;
            }
            j = j + 1;
        }
        assert(seen <==> seen_before(t, t.len() - 1));
        if !seen {
            r.push(Candidate { executable: c[i].executable.clone(), source: c[i].source });
            assert(candidate_views(r@) =~= first_occurrences(cv.take(i as int)).push(t.last()));
        }
        i = i + 1;
    }
    assert(cv.take(i as int) =~= cv);
    r
}

impl RuntimeResolver {
    /// The places a resolution of `spec` probes, in order. `file_name` is the
    /// executable's file name on this platform, and `environment_override` the
    /// value of the spec's override variable when it is set.
    pub fn candidates(&self, spec: &RuntimeSpec, file_name: &str, environment_override: Option<&str>) -> (r: Vec<Candidate>)
        ensures
            candidate_views(r@) == probe_order(*self, spec@, file_name@, match environment_override {
                Some(p) => Some(p@),
                None => None,
            }),
    {
        if let Some(p) = environment_override {
            let mut r: Vec<Candidate> = Vec::new();
            r.push(Candidate { executable: p.to_owned(), source: RuntimeSource::Environment });
            assert(candidate_views(r@) =~= seq![(p@, RuntimeSource::Environment)]);
            return r;
        }
        let mut all: Vec<Candidate> = Vec::new();
        if let Some(d) = &self.engine_directory {
            all.push(Candidate { executable: join_path(d.as_str(), file_name), source: RuntimeSource::EngineSibling });
        }
        if let Some(d) = &self.managed_directory {
            let bin = join_path(d.as_str(), "bin");
            all.push(Candidate { executable: join_path(bin.as_str(), file_name), source: RuntimeSource::ManagedDirectory });
            all.push(Candidate { executable: join_path(d.as_str(), file_name), source: RuntimeSource::ManagedDirectory });
        }
        all.push(Candidate { executable: spec.executable.clone(), source: RuntimeSource::Path });
        proof {
            reveal_strlit("bin");
        }
        assert(candidate_views(all@) =~= all_candidates(
            text_of(self.engine_directory),
            text_of(self.managed_directory),
            spec.executable@,
            file_name@,
        ));
        first_paths(&all)
    }
}

/// When an engine directory is set and no override is, the executable beside
/// the engine is probed first.
pub proof fn law_engine_sibling_first(resolver: RuntimeResolver, spec: RuntimeSpecView, file_name: Seq<char>)
    requires
        resolver.engine_directory is Some,
    ensures
        probe_order(resolver, spec, file_name, None).len() > 0,
        probe_order(resolver, spec, file_name, None)[0] == (
            path_joined(resolver.engine_directory.unwrap()@, file_name),
            RuntimeSource::EngineSibling,
        ),
{
    let all = all_candidates(
        text_of(resolver.engine_directory),
        text_of(resolver.managed_directory),
        spec.executable,
        file_name,
    );
    lemma_first_kept(all);
}

/// Without an engine directory and override, the managed directory's `bin/`
/// is probed first.
pub proof fn law_managed_bin_first(resolver: RuntimeResolver, spec: RuntimeSpecView, file_name: Seq<char>)
    requires
        resolver.engine_directory is None,
        resolver.managed_directory is Some,
    ensures
        probe_order(resolver, spec, file_name, None).len() > 0,
        probe_order(resolver, spec, file_name, None)[0] == (
            path_joined(path_joined(resolver.managed_directory.unwrap()@, "bin"@), file_name),
            RuntimeSource::ManagedDirectory,
        ),
{
    let all = all_candidates(
        text_of(resolver.engine_directory),
        text_of(resolver.managed_directory),
        spec.executable,
        file_name,
    );
    lemma_first_kept(all);
}

/// An explicit override is authoritative: whatever the resolver knows, the
/// override is the one place probed, so no other installation can be chosen.
pub proof fn law_override_is_authoritative(
    resolver: RuntimeResolver,
    spec: RuntimeSpecView,
    file_name: Seq<char>,
    override_path: Seq<char>,
)
    ensures
        probe_order(resolver, spec, file_name, Some(override_path)).len() == 1,
        probe_order(resolver, spec, file_name, Some(override_path))[0] == (
            override_path,
            RuntimeSource::Environment,
        ),
        forall|other: RuntimeResolver|
            #[trigger] probe_order(other, spec, file_name, Some(override_path)) == probe_order(
                resolver,
                spec,
                file_name,
                Some(override_path),
            ),
{
}

/// The first entry of a nonempty list is always kept, and stays first.
proof fn lemma_first_kept(c: Seq<(Seq<char>, RuntimeSource)>)
    requires
        c.len() > 0,
    ensures
        first_occurrences(c).len() > 0,
        first_occurrences(c)[0] == c[0],
    decreases c.len(),
{
    if c.len() == 1 {
        assert(first_occurrences(c.drop_last()) =~= Seq::<(Seq<char>, RuntimeSource)>::empty());
        assert(!seen_before(c, 0));
    } else {
        lemma_first_kept(c.drop_last());
    }
}

// ---------------------------------------------------------------------------
// Probes
// ---------------------------------------------------------------------------
/// What was found for one runtime.
#[derive(Debug, Clone, PartialEq, Eq)]
pub struct RuntimeStatus {
    pub spec: RuntimeSpec,
    pub available: bool,
    pub executable: String,
    pub source: Option<RuntimeSource>,
    pub version: Option<String>,
    pub detail: Option<String>,
}

pub ghost struct RuntimeStatusView {
    pub spec: RuntimeSpecView,
    pub available: bool,
    pub executable: Seq<char>,
    pub source: Option<RuntimeSource>,
    pub version: Option<Seq<char>>,
    pub detail: Option<Seq<char>>,
}

impl View for RuntimeStatus {
    type V = RuntimeStatusView;

    open spec fn view(&self) -> RuntimeStatusView {
        RuntimeStatusView {
            spec: self.spec@,
            available: self.available,
            executable: self.executable@,
            source: self.source,
            version: text_of(self.version),
            detail: text_of(self.detail),
        }
    }
}

/// The first line that is not blank, without its surrounding white space.
pub open spec fn first_nonblank(ls: Seq<Seq<char>>) -> Option<Seq<char>>
    decreases ls.len(),
{
    if ls.len() == 0 {
        None
    } else if trim(ls[0]).len() > 0 {
        Some(trim(ls[0]))
    } else {
        first_nonblank(ls.drop_first())
    }
}

/// The version a probe reports: the first nonblank line of its standard
/// output, or of its standard error when it wrote nothing to the former.
pub open spec fn reported_version(stdout: Seq<u8>, stderr: Seq<u8>) -> Option<Seq<char>> {
    first_nonblank(lines(lossy_text(if stdout.len() == 0 { stderr } else { stdout })))
}

/// The version line of a probe's output.
pub fn output_version(stdout: &[u8], stderr: &[u8]) -> (r: Option<String>)
    ensures
        text_of(r) == reported_version(stdout@, stderr@),
{
    let output = if stdout.len() == 0 { stderr } else { stdout };
    let text = decode_lossy(output);
    let all = split_lines(&chars_of(text.as_str()));
    let ghost ls = lines(lossy_text(output@));
    assert(ls.skip(0) =~= ls);
    let mut i: usize = 0;
    while i < all.len()
        invariant
            i <= all@.len(),
            all@.len() == ls.len(),
            ls == lines(lossy_text(if stdout@.len() == 0 { stderr@ } else { stdout@ })),
            forall|k: int| 0 <= k < all@.len() ==> #[trigger] all@[k]@ == ls[k],
            first_nonblank(ls) == first_nonblank(ls.skip(i as int)),
        decreases all@.len() - i,
    {
        let line = trimmed(&all[i]);
        assert(ls.skip(i as int).drop_first() =~= ls.skip(i + 1));
        assert(ls.skip(i as int)[0] == ls[i as int]);
        if line.len() > 0 {
            assert(first_nonblank(ls.skip(i as int)) == Some(trim(ls[i as int])));
            return Some(string_of(&line));
        }
        i = i + 1;
    }
    assert(ls.skip(i as int) =~= Seq::<Seq<char>>::empty());
    None
}

/// How a version probe ended.
#[derive(Debug, Clone)]
pub enum ProbeOutcome {
    /// The executable ran and exited successfully.
    Succeeded { stdout: Vec<u8>, stderr: Vec<u8> },
    /// The executable ran and failed; `status` describes its exit.
    Exited { status: String },
    /// The executable could not be run; `error` says why.
    Failed { error: String },
    /// The probe ran past its time limit.
    TimedOut,
}

/// What a probe of `executable` found, given how it ended.
pub open spec fn probe_view(
    spec: RuntimeSpecView,
    executable: Seq<char>,
    source: RuntimeSource,
    outcome: ProbeOutcome,
) -> RuntimeStatusView {
    match outcome {
        ProbeOutcome::Succeeded { stdout, stderr } => RuntimeStatusView {
            spec,
            available: true,
            executable,
            source: Some(source),
            version: reported_version(stdout@, stderr@),
            detail: None,
        },
        ProbeOutcome::Exited { status } => RuntimeStatusView {
            spec,
            available: false,
            executable,
            source: Some(source),
            version: None,
            detail: Some(executable + " exited with "@ + status@),
        },
        ProbeOutcome::Failed { error } => RuntimeStatusView {
            spec,
            available: false,
            executable,
            source: Some(source),
            version: None,
            detail: Some(executable + ": "@ + error@),
        },
        ProbeOutcome::TimedOut => RuntimeStatusView {
            spec,
            available: false,
            executable,
            source: Some(source),
            version: None,
            detail: Some(
                executable + " version probe timed out after "@ + decimal_digits(
                    PROBE_TIMEOUT_SECONDS as nat,
                ) + " seconds"@,
            ),
        },
    }
}

/// The status a probe of `executable` gives.
pub fn probe_status(spec: &RuntimeSpec, executable: &str, source: RuntimeSource, outcome: &ProbeOutcome) -> (s: RuntimeStatus)
    ensures
        s@ == probe_view(spec@, executable@, source, *outcome),
{
    let mut text = chars_of(executable);
    match outcome {
        ProbeOutcome::Succeeded { stdout, stderr } => RuntimeStatus {
            spec: spec.duplicate(),
            available: true,
            executable: executable.to_owned(),
            source: Some(source),
            version: output_version(stdout.as_slice(), stderr.as_slice()),
            detail: None,
        },
        ProbeOutcome::Exited { status } => {
            append_chars(&mut text, &chars_of(" exited with "));
            append_chars(&mut text, &chars_of(status.as_str()));
            RuntimeStatus {
                spec: spec.duplicate(),
                available: false,
                executable: executable.to_owned(),
                source: Some(source),
                version: None,
                detail: Some(string_of(&text)),
            }
        },
        ProbeOutcome::Failed { error } => {
            append_chars(&mut text, &chars_of(": "));
            append_chars(&mut text, &chars_of(error.as_str()));
            RuntimeStatus {
                spec: spec.duplicate(),
                available: false,
                executable: executable.to_owned(),
                source: Some(source),
                version: None,
                detail: Some(string_of(&text)),
            }
        },
        ProbeOutcome::TimedOut => {
            append_chars(&mut text, &chars_of(" version probe timed out after "));
            append_chars(&mut text, &format_u64(PROBE_TIMEOUT_SECONDS));
            append_chars(&mut text, &chars_of(" seconds"));
            RuntimeStatus {
                spec: spec.duplicate(),
                available: false,
                executable: executable.to_owned(),
                source: Some(source),
                version: None,
                detail: Some(string_of(&text)),
            }
        },
    }
}

// ---------------------------------------------------------------------------
// Resolution
// ---------------------------------------------------------------------------
/// A resolution of one runtime in progress: the places still to probe and
/// what the failed probes said.
#[derive(Debug, Clone)]
pub struct RuntimeResolution {
    pub spec: RuntimeSpec,
    pub candidates: Vec<Candidate>,
    pub next: usize,
    pub failures: Vec<String>,
}

impl RuntimeResolution {
    pub open spec fn wf(&self) -> bool {
        self.next <= self.candidates@.len()
    }

    /// The resolution of `spec` before any probe.
    pub fn start(resolver: &RuntimeResolver, spec: &RuntimeSpec, file_name: &str, environment_override: Option<&str>) -> (r: Self)
        ensures
            r.wf(),
            r.spec@ == spec@,
            candidate_views(r.candidates@) == probe_order(*resolver, spec@, file_name@, match environment_override {
                Some(p) => Some(p@),
                None => None,
            }),
            r.next == 0,
            r.failures@.len() == 0,
    {
        RuntimeResolution {
            spec: spec.duplicate(),
            candidates: resolver.candidates(spec, file_name, environment_override),
            next: 0,
            failures: Vec::new(),
        }
    }

    /// The place to probe next, none when every place was probed.
    pub fn next_probe(&self) -> (c: Option<Candidate>)
        requires
            self.wf(),
        ensures
            match c {
                Some(x) => self.next < self.candidates@.len() && candidate_view(x) == candidate_view(
                    self.candidates@[self.next as int],
                ),
                None => self.next == self.candidates@.len(),
            },
    {
        if self.next < self.candidates.len() {
            let c = &self.candidates[self.next];
            Some(Candidate { executable: c.executable.clone(), source: c.source })
        } else {
            None
        }
    }

    /// Takes in what the probe of the next place found. It is the answer when
    /// the runtime is available there or the place is the override; then no
    /// place is left to probe. Otherwise its detail, if any, is kept.
    pub fn record(&mut self, status: RuntimeStatus) -> (done: Option<RuntimeStatus>)
        requires
            old(self).wf(),
            old(self).next < old(self).candidates@.len(),
        ensures
            final(self).wf(),
            final(self).spec@ == old(self).spec@,
            candidate_views(final(self).candidates@) == candidate_views(old(self).candidates@),
            (status.available || old(self).candidates@[old(self).next as int].source == RuntimeSource::Environment) ==> {
                &&& done matches Some(d) && d@ == status@
                &&& final(self).next == final(self).candidates@.len()
                &&& texts(final(self).failures@) == texts(old(self).failures@)
            },
            !(status.available || old(self).candidates@[old(self).next as int].source == RuntimeSource::Environment) ==> {
                &&& done is None
                &&& final(self).next == old(self).next + 1
                &&& texts(final(self).failures@) == match text_of(status.detail) {
                    Some(d) => texts(old(self).failures@).push(d),
                    None => texts(old(self).failures@),
                }
            },
    {
        let total = self.candidates.len();
        let overridden = match self.candidates[self.next].source {
            RuntimeSource::Environment => true,
            _ => false,
        };
        if status.available || overridden {
            self.next = total;
            return Some(status);
        }
        self.next = self.next + 1;
        if let Some(d) = status.detail {
            let ghost before = self.failures@;
            self.failures.push(d);
            assert(texts(self.failures@) =~= texts(before).push(d@));
        }
        None
    }

    /// The status of a runtime that no place answered for: the failures'
    /// details joined with `; `.
    pub fn unresolved(&self) -> (s: RuntimeStatus)
        ensures
            s@ == (RuntimeStatusView {
                spec: self.spec@,
                available: false,
                executable: self.spec.executable@,
                source: None,
                version: None,
                detail: Some(joined(texts(self.failures@), "; "@)),
            }),
    {
        let detail = join_strings(&self.failures, "; ");
        assert(self.failures@.map_values(|s: String| s@) =~= texts(self.failures@));
        RuntimeStatus {
            spec: self.spec.duplicate(),
            available: false,
            executable: self.spec.executable.clone(),
            source: None,
            version: None,
            detail: Some(detail),
        }
    }
}

/// What was found for a list of runtimes.
#[derive(Debug, Clone, PartialEq, Eq)]
pub struct RuntimeInventory {
    pub schema_version: u32,
    pub runtime_directory_environment: String,
    pub runtimes: Vec<RuntimeStatus>,
}

impl RuntimeInventory {
    /// The inventory of the given statuses, in their order.
    pub fn from_runtimes(runtimes: Vec<RuntimeStatus>) -> (r: Self)
        ensures
            r.schema_version == RUNTIME_SCHEMA_VERSION,
            r.runtime_directory_environment@ == RUNTIME_DIRECTORY_ENV@,
            r.runtimes@ == runtimes@,
    {
        RuntimeInventory {
            schema_version: RUNTIME_SCHEMA_VERSION,
            runtime_directory_environment: RUNTIME_DIRECTORY_ENV.to_owned(),
            runtimes,
        }
    }
}

} // verus!
