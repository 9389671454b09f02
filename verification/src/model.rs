//! Extension contracts for world models, sources, analyzers and scoring
//! models: the values they describe themselves with and exchange.
use vstd::prelude::*;

use crate::identity::{EntityId, ModelId, ScoreModelId, SnapshotId};
use crate::kernel::Attributes;
use crate::text::{append_chars, chars_of, string_of};

verus! {

/// What a world model is: its identifier, version, and the kinds of entities
/// and relations it knows.
#[derive(Debug, Clone, PartialEq, Eq)]
pub struct ModelDescriptor {
    pub id: ModelId,
    pub version: u32,
    pub entity_kinds: Vec<String>,
    pub relation_kinds: Vec<String>,
}

/// Where the artifacts of a snapshot come from.
#[derive(Debug, Clone, PartialEq)]
pub struct SourceReference {
    pub kind: String,
    pub locator: String,
    pub cursor: Option<String>,
    pub attributes: Attributes,
}

/// What a world source is.
#[derive(Debug, Clone, PartialEq, Eq)]
pub struct SourceDescriptor {
    pub name: String,
    pub version: String,
    pub model: ModelId,
}

/// A request to resolve a source to one immutable version.
#[derive(Debug, Clone, PartialEq, Eq)]
pub struct SourceRequest {
    pub locator: String,
    /// A source-native immutable version, or the source's current version when absent.
    pub version: Option<String>,
}

/// A resolved source: what analyzers receive, and what the source recorded.
#[derive(Debug, Clone, PartialEq)]
pub struct SourceResolution {
    pub input: AnalysisInput,
    pub metadata: Attributes,
}

/// Why a source could not be resolved.
#[derive(Debug)]
pub enum SourceError {
    Unavailable(String),
    Failed(String),
}

pub open spec fn source_error_message(e: SourceError) -> Seq<char> {
    match e {
        SourceError::Unavailable(m) => "source is unavailable: "@ + m@,
        SourceError::Failed(m) => "source resolution failed: "@ + m@,
    }
}

impl SourceError {
    /// The text that describes this error.
    pub fn message(&self) -> (s: String)
        ensures
            s@ == source_error_message(*self),
    {
        let (mut text, detail) = match self {
            SourceError::Unavailable(m) => (chars_of("source is unavailable: "), m),
            SourceError::Failed(m) => (chars_of("source resolution failed: "), m),
        };
        append_chars(&mut text, &chars_of(detail.as_str()));
        string_of(&text)
    }
}

/// A source of worlds. It describes itself here; resolving a request to an
/// immutable snapshot reads the outside world and is left to the host.
pub trait WorldSource {
    fn descriptor(&self) -> SourceDescriptor;
}

/// A store of the artifacts that analyzers read. It says here which sources
/// it serves; listing and reading artifacts is left to the host.
pub trait ArtifactReader {
    fn supports(&self, source: &SourceReference) -> bool;
}

/// One artifact of a source, such as a file.
#[derive(Debug, Clone, PartialEq)]
pub struct Artifact {
    pub path: String,
    pub content_id: String,
    pub media_type: Option<String>,
    pub attributes: Attributes,
}

/// An artifact with its bytes.
#[derive(Debug, Clone, PartialEq)]
pub struct ArtifactContent {
    pub artifact: Artifact,
    pub bytes: Vec<u8>,
}

/// Why artifacts could not be listed or read.
#[derive(Debug)]
pub enum ArtifactError {
    Unavailable(String),
    Failed(String),
}

pub open spec fn artifact_error_message(e: ArtifactError) -> Seq<char> {
    match e {
        ArtifactError::Unavailable(m) => "artifact source is unavailable: "@ + m@,
        ArtifactError::Failed(m) => "artifact read failed: "@ + m@,
    }
}

impl ArtifactError {
    /// The text that describes this error.
    pub fn message(&self) -> (s: String)
        ensures
            s@ == artifact_error_message(*self),
    {
        let (mut text, detail) = match self {
            ArtifactError::Unavailable(m) => (chars_of("artifact source is unavailable: "), m),
            ArtifactError::Failed(m) => (chars_of("artifact read failed: "), m),
        };
        append_chars(&mut text, &chars_of(detail.as_str()));
        string_of(&text)
    }
}

/// What an analyzer is asked to observe.
#[derive(Debug, Clone, PartialEq)]
pub struct AnalysisInput {
    pub snapshot: SnapshotId,
    pub sources: Vec<SourceReference>,
    pub changed_entities: Option<Vec<EntityId>>,
}

/// What an analyzer is.
#[derive(Debug, Clone, PartialEq, Eq)]
pub struct AnalyzerDescriptor {
    pub name: String,
    pub version: String,
    pub model: ModelId,
    pub capabilities: Vec<AnalyzerCapability>,
    pub execution: AnalyzerExecution,
}

/// What an analyzer can observe.
#[derive(Debug, Clone, PartialEq, Eq, Hash)]
pub enum AnalyzerCapability {
    Symbols,
    Metrics,
    Hierarchy,
    Imports,
    References,
    Calls,
    Types,
    Diagnostics,
    Other(String),
}

pub open spec fn capability_name(c: AnalyzerCapability) -> Seq<char> {
    match c {
        AnalyzerCapability::Symbols => "symbols"@,
        AnalyzerCapability::Metrics => "metrics"@,
        AnalyzerCapability::Hierarchy => "hierarchy"@,
        AnalyzerCapability::Imports => "imports"@,
        AnalyzerCapability::References => "references"@,
        AnalyzerCapability::Calls => "calls"@,
        AnalyzerCapability::Types => "types"@,
        AnalyzerCapability::Diagnostics => "diagnostics"@,
        AnalyzerCapability::Other(value) => value@,
    }
}

impl AnalyzerCapability {
    pub fn as_str(&self) -> (s: &str)
        ensures
            s@ == capability_name(*self),
    {
        match self {
            AnalyzerCapability::Symbols => "symbols",
            AnalyzerCapability::Metrics => "metrics",
            AnalyzerCapability::Hierarchy => "hierarchy",
            AnalyzerCapability::Imports => "imports",
            AnalyzerCapability::References => "references",
            AnalyzerCapability::Calls => "calls",
            AnalyzerCapability::Types => "types",
            AnalyzerCapability::Diagnostics => "diagnostics",
            AnalyzerCapability::Other(value) => value.as_str(),
        }
    }
}

/// Whether indexing needs an analyzer to succeed.
#[derive(Debug, Clone, Copy, PartialEq, Eq)]
pub enum AnalyzerExecution {
    Required,
    Optional,
}

/// Why an analyzer produced no observations.
#[derive(Debug)]
pub enum AnalyzerError {
    Unavailable(String),
    Failed(String),
}

pub open spec fn analyzer_error_message(e: AnalyzerError) -> Seq<char> {
    match e {
        AnalyzerError::Unavailable(m) => "analyzer is unavailable: "@ + m@,
        AnalyzerError::Failed(m) => "analysis failed: "@ + m@,
    }
}

impl AnalyzerError {
    /// The text that describes this error.
    pub fn message(&self) -> (s: String)
        ensures
            s@ == analyzer_error_message(*self),
    {
        let (mut text, detail) = match self {
            AnalyzerError::Unavailable(m) => (chars_of("analyzer is unavailable: "), m),
            AnalyzerError::Failed(m) => (chars_of("analysis failed: "), m),
        };
        append_chars(&mut text, &chars_of(detail.as_str()));
        string_of(&text)
    }
}

/// What a scoring model is.
#[derive(Debug, Clone, PartialEq, Eq)]
pub struct ScoringModelDescriptor {
    pub id: ScoreModelId,
    pub version: u32,
    pub model: ModelId,
    pub dimensions: Vec<String>,
}

/// Why a scoring model did not score a batch.
#[derive(Debug)]
pub enum ScoringError {
    Unsupported(String),
    Failed(String),
}

pub open spec fn scoring_error_message(e: ScoringError) -> Seq<char> {
    match e {
        ScoringError::Unsupported(m) => "scoring model cannot score this batch: "@ + m@,
        ScoringError::Failed(m) => "scoring failed: "@ + m@,
    }
}

impl ScoringError {
    /// The text that describes this error.
    pub fn message(&self) -> (s: String)
        ensures
            s@ == scoring_error_message(*self),
    {
        let (mut text, detail) = match self {
            ScoringError::Unsupported(m) => (chars_of("scoring model cannot score this batch: "), m),
            ScoringError::Failed(m) => (chars_of("scoring failed: "), m),
        };
        append_chars(&mut text, &chars_of(detail.as_str()));
        string_of(&text)
    }
}

} // verus!
