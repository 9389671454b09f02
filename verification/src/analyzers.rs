//! The language analyzers: Tree-sitter, rust-analyzer and Language Server
//! Protocol adapters, and the decisions they make on what those tools
//! report.
use vstd::prelude::*;

use crate::git::path_extension;
use crate::kernel::{AttributeView, text_value};
use crate::lizard::{components_of, component_view, path_components, path_relative_to, ComponentView, PathComponent};
use crate::model::{AnalyzerError, Artifact};
use crate::numbers::{kind_message, parse_unsigned_spec, parse_usize_chars};
use crate::text::{append_chars, chars_of, slice_chars, starts_with, string_of, trim, trimmed};

verus! {

// ---------------------------------------------------------------------------
// Analyzers
// ---------------------------------------------------------------------------
/// Tree-sitter analysis of the artifacts of one language.
pub struct TreeSitterAnalyzer<A, S> {
    pub artifacts: A,
    pub spec: S,
}

impl<A, S> TreeSitterAnalyzer<A, S> {
    pub fn new(artifacts: A, spec: S) -> (r: Self)
        ensures
            r.artifacts == artifacts,
            r.spec == spec,
    {
        TreeSitterAnalyzer { artifacts, spec }
    }
}

/// Rust syntax analysis with Tree-sitter.
pub struct RustLanguageAnalyzer<A> {
    pub artifacts: A,
}

impl<A> RustLanguageAnalyzer<A> {
    pub fn new(artifacts: A) -> (r: Self)
        ensures
            r.artifacts == artifacts,
    {
        RustLanguageAnalyzer { artifacts }
    }
}

/// The Rust language pack.
pub struct RustLanguagePack<A> {
    pub artifacts: A,
}

impl<A> RustLanguagePack<A> {
    pub fn new(artifacts: A) -> (r: Self)
        ensures
            r.artifacts == artifacts,
    {
        RustLanguagePack { artifacts }
    }
}

/// Semantic analysis of Rust through rust-analyzer.
pub struct RustAnalyzer<A> {
    pub artifacts: A,
    pub executable: String,
    /// How long one request may take, in seconds.
    pub request_timeout_seconds: u64,
}

impl<A> RustAnalyzer<A> {
    /// An analyzer that runs `rust-analyzer` from the search path, allowing
    /// each request a minute.
    pub fn new(artifacts: A) -> (r: Self)
        ensures
            r.artifacts == artifacts,
            r.executable@ == "rust-analyzer"@,
            r.request_timeout_seconds == 60,
    {
        RustAnalyzer { artifacts, executable: "rust-analyzer".to_owned(), request_timeout_seconds: 60 }
    }

    /// The same analyzer, running the given program.
    pub fn with_executable(self, executable: &str) -> (r: Self)
        ensures
            r.artifacts == self.artifacts,
            r.executable@ == executable@,
            r.request_timeout_seconds == self.request_timeout_seconds,
    {
        RustAnalyzer { artifacts: self.artifacts, executable: executable.to_owned(), request_timeout_seconds: self.request_timeout_seconds }
    }
}

/// A generic Language Server Protocol analyzer around an adapter.
pub struct LspAnalyzer<A> {
    pub adapter: A,
}

impl<A> LspAnalyzer<A> {
    pub fn new(adapter: A) -> (r: Self)
        ensures
            r.adapter == adapter,
    {
        LspAnalyzer { adapter }
    }
}

// ---------------------------------------------------------------------------
// Language Server Protocol
// ---------------------------------------------------------------------------
/// Why a language server session failed.
#[derive(Debug)]
pub enum LspError {
    Unavailable(String),
    Protocol(String),
    Timeout,
    Server(String),
}

pub open spec fn lsp_error_message(e: LspError) -> Seq<char> {
    match e {
        LspError::Unavailable(m) => "language server is unavailable: "@ + m@,
        LspError::Protocol(m) => "language server protocol error: "@ + m@,
        LspError::Timeout => "language server request timed out"@,
        LspError::Server(m) => "language server returned an error: "@ + m@,
    }
}

impl LspError {
    /// The text that describes this error.
    pub fn message(&self) -> (s: String)
        ensures
            s@ == lsp_error_message(*self),
    {
        let text = match self {
            LspError::Unavailable(m) => {
                let mut t = chars_of("language server is unavailable: ");
                append_chars(&mut t, &chars_of(m.as_str()));
                t
            },
            LspError::Protocol(m) => {
                let mut t = chars_of("language server protocol error: ");
                append_chars(&mut t, &chars_of(m.as_str()));
                t
            },
            LspError::Timeout => chars_of("language server request timed out"),
            LspError::Server(m) => {
                let mut t = chars_of("language server returned an error: ");
                append_chars(&mut t, &chars_of(m.as_str()));
                t
            },
        };
        string_of(&text)
    }
}

/// An unavailable server makes the analyzer unavailable; any other failure
/// fails the analysis, with the error's text.
pub fn map_lsp_error(error: LspError) -> (r: AnalyzerError)
    ensures
        match error {
            LspError::Unavailable(m) => r matches AnalyzerError::Unavailable(x) && x@ == m@,
            _ => r matches AnalyzerError::Failed(x) && x@ == lsp_error_message(error),
        },
{
    match error {
        LspError::Unavailable(message) => AnalyzerError::Unavailable(message),
        other => {
            let text = other.message();
            AnalyzerError::Failed(text)
        },
    }
}

/// What a session does with a message that arrives while it waits.
#[derive(Debug)]
pub enum LspStep {
    /// The awaited answer: hand over its payload.
    Deliver,
    /// The awaited response, which reports this error.
    Fail(LspError),
    /// A request of the server: answer it with `null` and keep waiting.
    AnswerNull,
    /// Anything else: keep waiting.
    Skip,
}

/// What to do with a message while waiting for the response to request
/// `awaited`: `id` is the message's integer id, if it has one; `has_id` and
/// `has_method` say whether it has an id (of any kind) and a method;
/// `error` is the text of its error, if it reports one.
pub open spec fn response_step_spec(awaited: u64, id: Option<u64>, has_id: bool, has_method: bool, error: Option<Seq<char>>) -> Option<
    Result<bool, Seq<char>>,
> {
    if id == Some(awaited) {
        match error {
            Some(e) => Some(Err(e)),
            None => Some(Ok(true)),
        }
    } else if has_method && has_id {
        Some(Ok(false))
    } else {
        None
    }
}

/// What to do with a message while waiting for the response to request
/// `awaited`: its response delivers, or fails with the error it reports;
/// a request of the server is answered with `null`; anything else is skipped.
pub fn response_step(awaited: u64, id: Option<u64>, has_id: bool, has_method: bool, error: Option<String>) -> (r: LspStep)
    ensures
        match response_step_spec(awaited, id, has_id, has_method, match error {
            Some(e) => Some(e@),
            None => None,
        }) {
            Some(Ok(true)) => r is Deliver,
            Some(Err(e)) => r matches LspStep::Fail(LspError::Server(m)) && m@ == e,
            Some(Ok(false)) => r is AnswerNull,
            None => r is Skip,
        },
{
    let ours = match id {
        Some(i) => i == awaited,
        None => false,
    };
    if ours {
        match error {
            Some(e) => LspStep::Fail(LspError::Server(e)),
            None => LspStep::Deliver,
        }
    } else if has_method && has_id {
        LspStep::AnswerNull
    } else {
        LspStep::Skip
    }
}

/// What to do with a message while waiting for the notification `awaited`:
/// a notification of that method (a method and no id) delivers; a request
/// of the server is answered with `null`; anything else is skipped.
pub fn notification_step(awaited: &str, method: Option<&str>, has_method: bool, has_id: bool) -> (r: LspStep)
    ensures
        (method matches Some(m) && m@ == awaited@ && !has_id) ==> r is Deliver,
        !(method matches Some(m) && m@ == awaited@ && !has_id) ==> (if has_method && has_id {
            r is AnswerNull
        } else {
            r is Skip
        }),
{
    let matches = match method {
        Some(m) => crate::syntax::text_is(m, awaited),
        None => false,
    };
    if matches && !has_id {
        LspStep::Deliver
    } else if has_method && has_id {
        LspStep::AnswerNull
    } else {
        LspStep::Skip
    }
}

/// The LSP symbol kinds the semantic analysis keeps: module, class, method,
/// enum, interface, function, struct and constructor... as numbered by the
/// protocol (2, 5, 6, 9, 10, 11, 12, 23).
pub open spec fn kept_symbol_kind(kind: u64) -> bool {
    kind == 2 || kind == 5 || kind == 6 || kind == 9 || kind == 10 || kind == 11 || kind == 12 || kind == 23
}

pub fn supported_symbol_kind(kind: u64) -> (b: bool)
    ensures
        b == kept_symbol_kind(kind),
{
    kind == 2 || kind == 5 || kind == 6 || kind == 9 || kind == 10 || kind == 11 || kind == 12 || kind == 23
}

/// A position in a document; a missing coordinate counts as zero when
/// positions are compared.
#[derive(Debug, Clone, Copy, PartialEq, Eq)]
pub struct Position {
    pub line: Option<u64>,
    pub character: Option<u64>,
}

/// A range of a document, as a server reported it.
#[derive(Debug, Clone, Copy, PartialEq, Eq)]
pub struct Range {
    pub start: Option<Position>,
    pub end: Option<Position>,
}

pub open spec fn coordinate(c: Option<u64>) -> u64 {
    match c {
        Some(v) => v,
        None => 0,
    }
}

/// `a` is not after `b`: by line, then by character.
pub open spec fn position_le(a: Position, b: Position) -> bool {
    coordinate(a.line) < coordinate(b.line) || (coordinate(a.line) == coordinate(b.line)
        && coordinate(a.character) <= coordinate(b.character))
}

pub fn position_not_after(a: Position, b: Position) -> (r: bool)
    ensures
        r == position_le(a, b),
{
    let al = match a.line {
        Some(v) => v,
        None => 0,
    };
    let bl = match b.line {
        Some(v) => v,
        None => 0,
    };
    let ac = match a.character {
        Some(v) => v,
        None => 0,
    };
    let bc = match b.character {
        Some(v) => v,
        None => 0,
    };
    al < bl || (al == bl && ac <= bc)
}

/// Whether a range, with both ends, holds a position.
pub open spec fn range_holds(r: Range, p: Position) -> bool {
    match (r.start, r.end) {
        (Some(s), Some(e)) => position_le(s, p) && position_le(p, e),
        _ => false,
    }
}

pub fn contains(range: Range, position: Position) -> (b: bool)
    ensures
        b == range_holds(range, position),
{
    match (range.start, range.end) {
        (Some(s), Some(e)) => position_not_after(s, position) && position_not_after(position, e),
        _ => false,
    }
}

/// How many lines a range spans; a missing start counts as line zero and a
/// missing end as the last line there can be.
pub open spec fn span_of(r: Range) -> u64 {
    let start = match r.start {
        Some(p) => coordinate(p.line),
        None => 0,
    };
    let end = match r.end {
        Some(p) => match p.line {
            Some(l) => l,
            None => u64::MAX,
        },
        None => u64::MAX,
    };
    if end >= start {
        (end - start) as u64
    } else {
        0
    }
}

pub fn range_span(range: Range) -> (n: u64)
    ensures
        n == span_of(range),
{
    let start = match range.start {
        Some(p) => match p.line {
            Some(l) => l,
            None => 0,
        },
        None => 0,
    };
    let end = match range.end {
        Some(p) => match p.line {
            Some(l) => l,
            None => u64::MAX,
        },
        None => u64::MAX,
    };
    end.saturating_sub(start)
}

/// A symbol that rust-analyzer reported, with where it is.
#[derive(Debug, Clone, PartialEq, Eq)]
pub struct SymbolLocation {
    pub path: String,
    pub range: Range,
}

/// Position `i` of `catalog` is the innermost symbol of `path` holding the
/// position: the first of those with the smallest span.
pub open spec fn innermost(catalog: Seq<SymbolLocation>, path: Seq<char>, p: Position, i: int) -> bool {
    &&& 0 <= i < catalog.len()
    &&& catalog[i].path@ == path && range_holds(catalog[i].range, p)
    &&& forall|j: int| 0 <= j < catalog.len() && (#[trigger] catalog[j]).path@ == path && range_holds(catalog[j].range, p)
        ==> span_of(catalog[i].range) <= span_of(catalog[j].range) && (j < i ==> span_of(catalog[i].range) < span_of(catalog[j].range))
}

/// The innermost symbol of the file `path` (relative to the workspace) that
/// holds a position.
pub fn innermost_symbol(catalog: &[SymbolLocation], path: &str, position: Position) -> (r: Option<usize>)
    ensures
        match r {
            Some(i) => innermost(catalog@, path@, position, i as int),
            None => forall|j: int| 0 <= j < catalog@.len() ==> !((#[trigger] catalog@[j]).path@ == path@ && range_holds(catalog@[j].range, position)),
        },
{
    let key = path.to_owned();
    let mut best: Option<usize> = None;
    let mut i: usize = 0;
    while i < catalog.len()
        invariant
            i <= catalog@.len(),
            key@ == path@,
            match best {
                Some(b) => b < i && catalog@[b as int].path@ == path@ && range_holds(catalog@[b as int].range, position)
                    && forall|j: int| 0 <= j < i && (#[trigger] catalog@[j]).path@ == path@ && range_holds(catalog@[j].range, position)
                        ==> span_of(catalog@[b as int].range) <= span_of(catalog@[j].range) && (j < b ==> span_of(catalog@[b as int].range) < span_of(catalog@[j].range)),
                None => forall|j: int| 0 <= j < i ==> !((#[trigger] catalog@[j]).path@ == path@ && range_holds(catalog@[j].range, position)),
            },
        decreases catalog@.len() - i,
    {
        let s = &catalog[i];
        if s.path == key && contains(s.range, position) {
            let better = match best {
                None => true,
                Some(b) => range_span(s.range) < range_span(catalog[b].range),
            };
            if better {
                best = Some(i);
            }
        }
        i = i + 1;
    }
    best
}

// ---------------------------------------------------------------------------
// Paths
// ---------------------------------------------------------------------------
/// What `Path::parent` gives for a path, as text.
pub uninterp spec fn path_parent(path: Seq<char>) -> Option<Seq<char>>;

/// `Path::parent`, read back as text.
#[verifier::external_body]
fn parent_of(path: &str) -> (r: Option<String>)
    ensures
        path_parent(path@) == (match r {
            Some(s) => Some(s@),
            None => None::<Seq<char>>,
        }),
{
    std::path::Path::new(path).parent().map(|parent| parent.to_string_lossy().into_owned())
}

/// The text of a path component: `.` for the current directory and `..` for
/// its parent, as `Component::as_os_str` documents.
pub open spec fn component_text(c: ComponentView) -> Seq<char> {
    match c {
        ComponentView::Prefix(t) => t,
        ComponentView::RootDir(t) => t,
        ComponentView::CurDir => "."@,
        ComponentView::ParentDir => ".."@,
        ComponentView::Normal(n) => n,
    }
}

/// The text of the components of a path's parent; none without a parent.
pub open spec fn parent_components(path: Seq<char>) -> Seq<Seq<char>> {
    match path_parent(path) {
        Some(p) => path_components(p).map_values(|c: ComponentView| component_text(c)),
        None => Seq::empty(),
    }
}

fn parent_parts(path: &str) -> (r: Vec<String>)
    ensures
        r@.map_values(|s: String| s@) == parent_components(path@),
{
    let mut out: Vec<String> = Vec::new();
    match parent_of(path) {
        None => {
            assert(out@.map_values(|s: String| s@) =~= Seq::<Seq<char>>::empty());
        },
        Some(parent) => {
            let components = components_of(parent.as_str());
            let ghost cs = components@.map_values(|c: PathComponent| component_view(c));
            let mut i: usize = 0;
            while i < components.len()
                invariant
                    i <= components@.len(),
                    cs == components@.map_values(|c: PathComponent| component_view(c)),
                    out@.map_values(|s: String| s@) == cs.take(i as int).map_values(|c: ComponentView| component_text(c)),
                decreases components@.len() - i,
            {
                let text = match &components[i] {
                    PathComponent::Prefix(t) => t.clone(),
                    PathComponent::RootDir(t) => t.clone(),
                    PathComponent::CurDir => ".".to_owned(),
                    PathComponent::ParentDir => "..".to_owned(),
                    PathComponent::Normal(n) => n.clone(),
                };
                proof {
                    assert(cs[i as int] == component_view(components@[i as int]));
                }
                assert(text@ == component_text(cs[i as int]));
                let ghost before = out@;
                out.push(text);
                proof {
                    assert(out@ == before.push(text));
                    assert(before.map_values(|s: String| s@) == cs.take(i as int).map_values(|c: ComponentView| component_text(c)));
                    assert(cs.take(i + 1) =~= cs.take(i as int).push(cs[i as int]));
                    assert(out@.map_values(|s: String| s@) =~= before.map_values(|s: String| s@).push(text@));
                    assert(cs.take(i + 1).map_values(|c: ComponentView| component_text(c)) =~= cs.take(i as int).map_values(
                        |c: ComponentView| component_text(c),
                    ).push(component_text(cs[i as int])));
                }
                i = i + 1;
            }
            assert(cs.take(i as int) =~= cs);
        },
    }
    out
}

/// What `Path::file_stem` gives for a path, as text.
pub uninterp spec fn path_file_stem(path: Seq<char>) -> Option<Seq<char>>;

/// `Path::file_stem`, read back as text.
#[verifier::external_body]
fn file_stem(path: &str) -> (r: Option<String>)
    ensures
        path_file_stem(path@) == (match r {
            Some(s) => Some(s@),
            None => None::<Seq<char>>,
        }),
{
    std::path::Path::new(path).file_stem().map(|stem| stem.to_string_lossy().into_owned())
}

/// The module path of a Rust source file: its directories without a leading
/// `src`, then its file stem unless that is `lib`, `main` or `mod`.
pub open spec fn rust_module_parts(path: Seq<char>) -> Seq<Seq<char>> {
    let parts = parent_components(path);
    let dirs = if parts.len() > 0 && parts[0] == "src"@ {
        parts.drop_first()
    } else {
        parts
    };
    match path_file_stem(path) {
        Some(stem) => if stem == "lib"@ || stem == "main"@ || stem == "mod"@ {
            dirs
        } else {
            dirs.push(stem)
        },
        None => dirs,
    }
}

pub fn module_parts(path: &str) -> (r: Vec<String>)
    ensures
        r@.map_values(|s: String| s@) == rust_module_parts(path@),
{
    let mut parts = parent_parts(path);
    let ghost p0 = parts@.map_values(|s: String| s@);
    if parts.len() > 0 && parts[0] == "src".to_owned() {
        parts.remove(0);
        assert(parts@.map_values(|s: String| s@) =~= p0.drop_first());
    }
    let ghost p1 = parts@.map_values(|s: String| s@);
    match file_stem(path) {
        Some(stem) => {
            if !(stem == "lib".to_owned() || stem == "main".to_owned() || stem == "mod".to_owned()) {
                parts.push(stem);
                assert(parts@.map_values(|s: String| s@) =~= p1.push(path_file_stem(path@)->Some_0));
            }
        },
        None => {},
    }
    parts
}

/// A path below the workspace, relative to it, with `/` separators.
pub open spec fn workspace_relative(path: Seq<char>, workspace: Seq<char>) -> Result<Seq<char>, Seq<char>> {
    match path_relative_to(path, workspace) {
        Some(r) => Ok(r.map_values(|c: char| if c == '\\' { '/' } else { c })),
        None => Err("path escaped semantic workspace: "@ + path),
    }
}

pub fn relative_path(path: &str, workspace: &str) -> (r: Result<String, AnalyzerError>)
    ensures
        match workspace_relative(path@, workspace@) {
            Ok(p) => r matches Ok(s) && s@ == p,
            Err(m) => r matches Err(AnalyzerError::Failed(e)) && e@ == m,
        },
{
    match crate::lizard::strip_path_prefix(path, workspace) {
        Some(rest) => {
            let chars = chars_of(rest.as_str());
            let mut out: Vec<char> = Vec::new();
            let mut i: usize = 0;
            while i < chars.len()
                invariant
                    i <= chars@.len(),
                    out@ == chars@.take(i as int).map_values(|c: char| if c == '\\' { '/' } else { c }),
                decreases chars@.len() - i,
            {
                out.push(if chars[i] == '\\' { '/' } else { chars[i] });
                assert(out@ =~= chars@.take(i + 1).map_values(|c: char| if c == '\\' { '/' } else { c }));
                i = i + 1;
            }
            assert(chars@.take(i as int) =~= chars@);
            Ok(string_of(&out))
        },
        None => {
            let mut m = chars_of("path escaped semantic workspace: ");
            append_chars(&mut m, &chars_of(path));
            Err(AnalyzerError::Failed(string_of(&m)))
        },
    }
}

/// Whether an artifact is for a language: it says so, or its extension is
/// one of the language's.
pub open spec fn artifact_in_language(a: Artifact, language: Seq<char>, extensions: Seq<&str>) -> bool {
    text_value(a.attributes.get_spec("language"@)) == Some(language) || match path_extension(a.path@) {
        Some(e) => exists|i: int| 0 <= i < extensions.len() && (#[trigger] extensions[i])@ == e,
        None => false,
    }
}

pub fn supports_artifact(language: &str, extensions: &[&str], artifact: &Artifact) -> (b: bool)
    requires
        artifact.attributes.wf(),
    ensures
        b == artifact_in_language(*artifact, language@, extensions@),
{
    let said = match artifact.attributes.get("language") {
        Some(v) => match v.as_text() {
            Some(t) => t.to_owned() == language.to_owned(),
            None => false,
        },
        None => false,
    };
    if said {
        return true;
    }
    match crate::git::extension_of(artifact.path.as_str()) {
        Some(e) => {
            let key = chars_of(e.as_str());
            let mut i: usize = 0;
            while i < extensions.len()
                invariant
                    i <= extensions@.len(),
                    key@ == e@,
                    path_extension(artifact.path@) == Some(e@),
                    forall|k: int| 0 <= k < i ==> (#[trigger] extensions@[k])@ != e@,
                decreases extensions@.len() - i,
            {
                let candidate = chars_of(extensions[i]);
                if crate::text::same_chars(&candidate, &key) {
                    assert(0 <= i < extensions@.len() && (#[trigger] extensions@[i as int])@ == e@);
                    return true;
                }
                i = i + 1;
            }
            false
        },
        None => false,
    }
}

// ---------------------------------------------------------------------------
// File URIs
// ---------------------------------------------------------------------------
/// What `Url::parse` and then `Url::to_file_path` give for a URI: the parse
/// error's text, or the file path (none when the URI names no file).
pub uninterp spec fn uri_file_path(uri: Seq<char>) -> Result<Option<Seq<char>>, Seq<char>>;

/// `Url::parse`, then `Url::to_file_path` with the path read back as text.
#[verifier::external_body]
fn parse_file_uri(uri: &str) -> (r: Result<Option<String>, String>)
    ensures
        uri_file_path(uri@) == match r {
            Ok(Some(p)) => Ok(Some(p@)),
            Ok(None) => Ok(None),
            Err(e) => Err(e@),
        },
{
    match url::Url::parse(uri) {
        Ok(url) => Ok(url.to_file_path().ok().map(|path| path.to_string_lossy().into_owned())),
        Err(error) => Err(error.to_string()),
    }
}

/// What `Url::from_file_path` gives for a path, as text (none when the path
/// is not absolute).
pub uninterp spec fn path_file_uri(path: Seq<char>) -> Option<Seq<char>>;

/// `Url::from_file_path`, with the URI as text.
#[verifier::external_body]
fn encode_file_uri(path: &str) -> (r: Option<String>)
    ensures
        path_file_uri(path@) == match r {
            Some(u) => Some(u@),
            None => None::<Seq<char>>,
        },
{
    url::Url::from_file_path(path).ok().map(|url| url.to_string())
}

/// The `file:` URI of a path.
pub fn file_uri(path: &str) -> (r: Result<String, AnalyzerError>)
    ensures
        match path_file_uri(path@) {
            Some(u) => r matches Ok(s) && s@ == u,
            None => r matches Err(AnalyzerError::Failed(m)) && m@ == "encode file URI: "@ + path@,
        },
{
    match encode_file_uri(path) {
        Some(u) => Ok(u),
        None => {
            let mut m = chars_of("encode file URI: ");
            append_chars(&mut m, &chars_of(path));
            Err(AnalyzerError::Failed(string_of(&m)))
        },
    }
}

/// What `Url::from_directory_path` gives for a path, as text (none when the
/// path is not absolute).
pub uninterp spec fn path_directory_uri(path: Seq<char>) -> Option<Seq<char>>;

/// `Url::from_directory_path`, with the URI as text.
#[verifier::external_body]
fn encode_directory_uri(path: &str) -> (r: Option<String>)
    ensures
        path_directory_uri(path@) == match r {
            Some(u) => Some(u@),
            None => None::<Seq<char>>,
        },
{
    url::Url::from_directory_path(path).ok().map(|url| url.to_string())
}

/// The `file:` URI of a workspace directory.
pub fn directory_uri(path: &str) -> (r: Result<String, AnalyzerError>)
    ensures
        match path_directory_uri(path@) {
            Some(u) => r matches Ok(s) && s@ == u,
            None => r matches Err(AnalyzerError::Failed(m)) && m@ == "encode rust-analyzer root URI"@,
        },
{
    match encode_directory_uri(path) {
        Some(u) => Ok(u),
        None => Err(AnalyzerError::Failed("encode rust-analyzer root URI".to_owned())),
    }
}

/// The workspace-relative path a file URI names.
pub open spec fn uri_relative(uri: Seq<char>, workspace: Seq<char>) -> Result<Seq<char>, Seq<char>> {
    match uri_file_path(uri) {
        Err(e) => Err("parse LSP URI: "@ + e),
        Ok(None) => Err("LSP URI is not a file: "@ + uri),
        Ok(Some(p)) => workspace_relative(p, workspace),
    }
}

/// The workspace-relative path a file URI names.
pub fn uri_path(uri: &str, workspace: &str) -> (r: Result<String, AnalyzerError>)
    ensures
        match uri_relative(uri@, workspace@) {
            Ok(p) => r matches Ok(s) && s@ == p,
            Err(m) => r matches Err(AnalyzerError::Failed(e)) && e@ == m,
        },
{
    match parse_file_uri(uri) {
        Err(e) => {
            let mut m = chars_of("parse LSP URI: ");
            append_chars(&mut m, &chars_of(e.as_str()));
            Err(AnalyzerError::Failed(string_of(&m)))
        },
        Ok(None) => {
            let mut m = chars_of("LSP URI is not a file: ");
            append_chars(&mut m, &chars_of(uri));
            Err(AnalyzerError::Failed(string_of(&m)))
        },
        Ok(Some(p)) => relative_path(p.as_str(), workspace),
    }
}

/// The innermost symbol holding a position of the file that `uri` names.
pub fn containing_symbol(catalog: &[SymbolLocation], uri: &str, position: Position, workspace: &str) -> (r: Result<Option<usize>, AnalyzerError>)
    ensures
        match uri_relative(uri@, workspace@) {
            Err(m) => r matches Err(AnalyzerError::Failed(e)) && e@ == m,
            Ok(p) => r matches Ok(o) && match o {
                Some(i) => innermost(catalog@, p, position, i as int),
                None => forall|j: int| 0 <= j < catalog@.len() ==> !((#[trigger] catalog@[j]).path@ == p && range_holds(catalog@[j].range, position)),
            },
        },
{
    match uri_path(uri, workspace) {
        Ok(p) => Ok(innermost_symbol(catalog, p.as_str(), position)),
        Err(e) => Err(e),
    }
}

// ---------------------------------------------------------------------------
// Language server message framing
// ---------------------------------------------------------------------------
/// The value of a `Content-Length` header line, if the line is one.
pub open spec fn content_length_value(line: Seq<char>) -> Option<Seq<char>> {
    let t = trim(line);
    if t.len() >= 15 && t.take(15) == "Content-Length:"@ {
        Some(trim(t.skip(15)))
    } else {
        None
    }
}

/// The headers of one framed message, read so far.
#[derive(Debug, Clone, Copy, PartialEq, Eq)]
pub struct LspHeaders {
    pub content_length: Option<usize>,
}

impl LspHeaders {
    /// No header read yet.
    pub fn new() -> (h: Self)
        ensures
            h.content_length is None,
    {
        LspHeaders { content_length: None }
    }

    /// Takes one header line, with its line ending. It is `true` at the empty
    /// line that ends the headers; a `Content-Length` line sets the length.
    pub fn take_line(&mut self, line: &str) -> (r: Result<bool, LspError>)
        ensures
            (line@ == "\r\n"@ || line@ == "\n"@) ==> (r matches Ok(b) && b && *final(self) == *old(self)),
            !(line@ == "\r\n"@ || line@ == "\n"@) ==> match content_length_value(line@) {
                None => r matches Ok(b) && !b && *final(self) == *old(self),
                Some(v) => match parse_unsigned_spec(v, usize::MAX as nat) {
                    Ok(n) => r matches Ok(b) && !b && final(self).content_length == Some(n as usize),
                    Err(k) => r matches Err(LspError::Protocol(m)) && m@ == "invalid Content-Length: "@ + kind_message(k),
                },
            },
    {
        let text = chars_of(line);
        if crate::text::same_chars(&text, &chars_of("\r\n")) || crate::text::same_chars(&text, &chars_of("\n")) {
            return Ok(true);
        }
        let t = trimmed(&chars_of(line));
        let prefix = chars_of("Content-Length:");
        proof {
            reveal_strlit("Content-Length:");
        }
        if t.len() >= 15 && starts_with(&t, &prefix) {
            assert(t@.take(15) == "Content-Length:"@);
            let value = trimmed(&slice_chars(&t, 15, t.len()));
            assert(t@.subrange(15, t@.len() as int) =~= t@.skip(15));
            match parse_usize_chars(&value) {
                Ok(n) => {
                    self.content_length = Some(n);
                    Ok(false)
                },
                Err(k) => {
                    let mut m = chars_of("invalid Content-Length: ");
                    append_chars(&mut m, &chars_of(k.message()));
                    Err(LspError::Protocol(string_of(&m)))
                },
            }
        } else {
            proof {
                if t@.len() >= 15 {
                    assert(!(t@.take(15) == "Content-Length:"@));
                }
            }
            Ok(false)
        }
    }

    /// The length of the body the headers announce.
    pub fn body_length(&self) -> (r: Result<usize, LspError>)
        ensures
            match self.content_length {
                Some(n) => r == Ok::<usize, LspError>(n),
                None => r matches Err(LspError::Protocol(m)) && m@ == "response lacks Content-Length"@,
            },
    {
        match self.content_length {
            Some(n) => Ok(n),
            None => Err(LspError::Protocol("response lacks Content-Length".to_owned())),
        }
    }
}

} // verus!
