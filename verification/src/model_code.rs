//! The code world model: repositories, revisions, symbols and the kinds of
//! code entities and dependencies.
use vstd::prelude::*;

use crate::identity::{EntityId, ModelId, SnapshotId};
use crate::kernel::{AttributeValue, AttributeView, Attributes, Entity, EntityObservation, attribute_pairs};
use crate::maps::{keys_distinct, seq_map};
use crate::model::ModelDescriptor;
use crate::numbers::{decimal_digits, format_u64};
use crate::text::{append_chars, chars_of, string_of};

verus! {

/// The identifier of the code world model.
pub const CODE_MODEL_ID: &'static str = "code";

/// A repository, such as `remote:github.com/owner/name`.
#[derive(Debug, Clone, PartialEq, Eq, Hash)]
pub struct RepositoryId(pub String);

/// A Git object identifier.
#[derive(Debug, Clone, PartialEq, Eq, Hash)]
pub struct GitOid(pub String);

/// A code symbol, stable across revisions.
#[derive(Debug, Clone, PartialEq, Eq, Hash)]
pub struct SymbolId(pub String);

/// A programming language, such as `rust`.
#[derive(Debug, Clone, PartialEq, Eq, Hash)]
pub struct LanguageId(pub String);

impl View for RepositoryId {
    type V = Seq<char>;

    open spec fn view(&self) -> Seq<char> {
        self.0@
    }
}

impl View for GitOid {
    type V = Seq<char>;

    open spec fn view(&self) -> Seq<char> {
        self.0@
    }
}

impl View for SymbolId {
    type V = Seq<char>;

    open spec fn view(&self) -> Seq<char> {
        self.0@
    }
}

impl View for LanguageId {
    type V = Seq<char>;

    open spec fn view(&self) -> Seq<char> {
        self.0@
    }
}

impl RepositoryId {
    pub fn new(value: &str) -> (r: Self)
        ensures
            r@ == value@,
    {
        RepositoryId(value.to_owned())
    }

    pub fn as_str(&self) -> (s: &str)
        ensures
            s@ == self@,
    {
        self.0.as_str()
    }
}

impl GitOid {
    pub fn new(value: &str) -> (r: Self)
        ensures
            r@ == value@,
    {
        GitOid(value.to_owned())
    }

    pub fn as_str(&self) -> (s: &str)
        ensures
            s@ == self@,
    {
        self.0.as_str()
    }
}

impl SymbolId {
    pub fn new(value: &str) -> (r: Self)
        ensures
            r@ == value@,
    {
        SymbolId(value.to_owned())
    }

    pub fn as_str(&self) -> (s: &str)
        ensures
            s@ == self@,
    {
        self.0.as_str()
    }
}

impl LanguageId {
    pub fn new(value: &str) -> (r: Self)
        ensures
            r@ == value@,
    {
        LanguageId(value.to_owned())
    }

    pub fn as_str(&self) -> (s: &str)
        ensures
            s@ == self@,
    {
        self.0.as_str()
    }
}

/// The code world model pack.
#[derive(Debug, Clone, Copy, Default)]
pub struct CodeModelPack;

pub open spec fn code_entity_kinds() -> Seq<Seq<char>> {
    seq![
        "module"@, "file"@, "namespace"@, "type"@, "trait"@, "interface"@, "function"@,
        "method"@, "field"@, "constant"@, "unknown"@,
    ]
}

pub open spec fn code_relation_kinds() -> Seq<Seq<char>> {
    seq!["calls"@, "imports"@, "references"@, "implements"@, "inherits"@, "contains"@]
}

pub(crate) fn owned_all(names: &[&str]) -> (v: Vec<String>)
    ensures
        v@.map_values(|s: String| s@) == names@.map_values(|s: &str| s@),
{
    let mut v: Vec<String> = Vec::new();
    let mut i: usize = 0;
    while i < names.len()
        invariant
            i <= names@.len(),
            v@.map_values(|s: String| s@) == names@.take(i as int).map_values(|s: &str| s@),
        decreases names@.len() - i,
    {
        let ghost before = v@;
        v.push(names[i].to_owned());
        assert(v@.map_values(|s: String| s@) =~= before.map_values(|s: String| s@).push(names@[i as int]@));
        assert(names@.take(i + 1) =~= names@.take(i as int).push(names@[i as int]));
        assert(names@.take(i + 1).map_values(|s: &str| s@) =~= names@.take(i as int).map_values(|s: &str| s@).push(names@[i as int]@));
        assert(v@.map_values(|s: String| s@) =~= names@.take(i + 1).map_values(|s: &str| s@));
        i = i + 1;
    }
    assert(names@.take(i as int) =~= names@);
    v
}

impl CodeModelPack {
    /// The code model: version one, with its entity and relation kinds.
    pub fn descriptor(&self) -> (d: ModelDescriptor)
        ensures
            d.id@ == CODE_MODEL_ID@,
            d.version == 1,
            d.entity_kinds@.map_values(|s: String| s@) == code_entity_kinds(),
            d.relation_kinds@.map_values(|s: String| s@) == code_relation_kinds(),
    {
        let entity_kinds: [&str; 11] = [
            "module", "file", "namespace", "type", "trait", "interface", "function", "method",
            "field", "constant", "unknown",
        ];
        let relation_kinds: [&str; 6] = ["calls", "imports", "references", "implements", "inherits", "contains"];
        let e = owned_all(&entity_kinds);
        let r = owned_all(&relation_kinds);
        assert(entity_kinds@.map_values(|s: &str| s@) =~= code_entity_kinds());
        assert(relation_kinds@.map_values(|s: &str| s@) =~= code_relation_kinds());
        ModelDescriptor { id: ModelId::new(CODE_MODEL_ID), version: 1, entity_kinds: e, relation_kinds: r }
    }
}

/// One commit of one repository.
#[derive(Debug, Clone, PartialEq, Eq, Hash)]
pub struct RevisionId {
    pub repository: RepositoryId,
    pub commit: GitOid,
}

/// The world of a repository.
pub open spec fn repository_world(repository: Seq<char>) -> Seq<char> {
    "code.repository:"@ + repository
}

impl RevisionId {
    pub fn new(repository: &str, commit: &str) -> (r: Self)
        ensures
            r.repository@ == repository@,
            r.commit@ == commit@,
    {
        RevisionId { repository: RepositoryId::new(repository), commit: GitOid::new(commit) }
    }

    /// The snapshot of this revision: the repository's world, at the commit.
    pub fn snapshot(&self) -> (s: SnapshotId)
        ensures
            s.world@ == repository_world(self.repository@),
            s.version@ == self.commit@,
    {
        let mut world = chars_of("code.repository:");
        append_chars(&mut world, &chars_of(self.repository.as_str()));
        let world = string_of(&world);
        SnapshotId::new(world.as_str(), self.commit.as_str())
    }
}

/// The kind of a code entity.
#[derive(Debug, Clone, Copy, PartialEq, Eq)]
pub enum NodeKind {
    File,
    Module,
    Namespace,
    Type,
    Trait,
    Interface,
    Function,
    Method,
    Field,
    Constant,
    Unknown,
}

pub open spec fn node_kind_name(k: NodeKind) -> Seq<char> {
    match k {
        NodeKind::File => "file"@,
        NodeKind::Module => "module"@,
        NodeKind::Namespace => "namespace"@,
        NodeKind::Type => "type"@,
        NodeKind::Trait => "trait"@,
        NodeKind::Interface => "interface"@,
        NodeKind::Function => "function"@,
        NodeKind::Method => "method"@,
        NodeKind::Field => "field"@,
        NodeKind::Constant => "constant"@,
        NodeKind::Unknown => "unknown"@,
    }
}

impl NodeKind {
    pub fn as_str(self) -> (s: &'static str)
        ensures
            s@ == node_kind_name(self),
    {
        match self {
            NodeKind::File => "file",
            NodeKind::Module => "module",
            NodeKind::Namespace => "namespace",
            NodeKind::Type => "type",
            NodeKind::Trait => "trait",
            NodeKind::Interface => "interface",
            NodeKind::Function => "function",
            NodeKind::Method => "method",
            NodeKind::Field => "field",
            NodeKind::Constant => "constant",
            NodeKind::Unknown => "unknown",
        }
    }
}

/// A code symbol: its identity, language, qualified name and kind.
#[derive(Debug, Clone, PartialEq, Eq)]
pub struct CodeSymbol {
    pub id: SymbolId,
    pub language: LanguageId,
    pub qualified_name: String,
    pub kind: NodeKind,
}

/// How often a file changed recently.
#[derive(Debug, Clone, Copy, PartialEq, Eq)]
pub enum RecentFrequency {
    Low,
    Medium,
    High,
}

pub open spec fn frequency_name(f: RecentFrequency) -> Seq<char> {
    match f {
        RecentFrequency::Low => "low"@,
        RecentFrequency::Medium => "medium"@,
        RecentFrequency::High => "high"@,
    }
}

/// The frequency band of a number of recent commits: up to two is low, up
/// to nine medium, more high.
pub open spec fn frequency_of(commits: u32) -> RecentFrequency {
    if commits <= 2 {
        RecentFrequency::Low
    } else if commits <= 9 {
        RecentFrequency::Medium
    } else {
        RecentFrequency::High
    }
}

impl RecentFrequency {
    pub fn as_str(self) -> (s: &'static str)
        ensures
            s@ == frequency_name(self),
    {
        match self {
            RecentFrequency::Low => "low",
            RecentFrequency::Medium => "medium",
            RecentFrequency::High => "high",
        }
    }

    pub fn from_recent_commits(commits: u32) -> (f: Self)
        ensures
            f == frequency_of(commits),
    {
        if commits <= 2 {
            RecentFrequency::Low
        } else if commits <= 9 {
            RecentFrequency::Medium
        } else {
            RecentFrequency::High
        }
    }
}

/// The kind of a dependency between code symbols.
#[derive(Debug, Clone, PartialEq, Eq, Hash)]
pub enum DependencyType {
    Calls,
    Imports,
    References,
    Implements,
    Inherits,
    Contains,
    Other(String),
}

pub open spec fn dependency_name(d: DependencyType) -> Seq<char> {
    match d {
        DependencyType::Calls => "calls"@,
        DependencyType::Imports => "imports"@,
        DependencyType::References => "references"@,
        DependencyType::Implements => "implements"@,
        DependencyType::Inherits => "inherits"@,
        DependencyType::Contains => "contains"@,
        DependencyType::Other(value) => "other:"@ + value@,
    }
}

impl DependencyType {
    pub fn as_str(&self) -> (s: String)
        ensures
            s@ == dependency_name(*self),
    {
        match self {
            DependencyType::Calls => "calls".to_owned(),
            DependencyType::Imports => "imports".to_owned(),
            DependencyType::References => "references".to_owned(),
            DependencyType::Implements => "implements".to_owned(),
            DependencyType::Inherits => "inherits".to_owned(),
            DependencyType::Contains => "contains".to_owned(),
            DependencyType::Other(value) => {
                let mut text = chars_of("other:");
                append_chars(&mut text, &chars_of(value.as_str()));
                string_of(&text)
            },
        }
    }
}

} // verus!

verus! {

/// The attributes of a tracked file: its path, language, blob, mode and size
/// (null when unknown).
pub open spec fn file_attributes(
    path: Seq<char>,
    blob_oid: Seq<char>,
    mode: Seq<char>,
    size: Option<u64>,
    language: Seq<char>,
) -> Map<Seq<char>, AttributeView> {
    Map::empty()
        .insert("file_path"@, AttributeView::Text(path))
        .insert("language"@, AttributeView::Text(language))
        .insert("git.blob_oid"@, AttributeView::Text(blob_oid))
        .insert("git.mode"@, AttributeView::Text(mode))
        .insert("file.size_bytes"@, match size {
            Some(n) => AttributeView::Unsigned(n),
            None => AttributeView::Null,
        })
}

/// The file entity of a tracked file at a revision.
pub fn file_observation(
    revision: &RevisionId,
    path: &str,
    blob_oid: &str,
    mode: &str,
    size: Option<u64>,
    language: &LanguageId,
) -> (o: EntityObservation)
    ensures
        o.wf(),
        o.snapshot.world@ == repository_world(revision.repository@),
        o.snapshot.version@ == revision.commit@,
        o.entity.id@ == "file:"@ + path@,
        o.entity.model@ == CODE_MODEL_ID@,
        o.entity.kind@ == "file"@,
        o.entity.label@ == path@,
        o.attributes@ == file_attributes(path@, blob_oid@, mode@, size, language@),
        o.measurements@.len() == 0,
        o.scores@.len() == 0,
{
    let mut entries: Vec<(String, AttributeValue)> = Vec::new();
    entries.push(("file_path".to_owned(), AttributeValue::Text(path.to_owned())));
    entries.push(("language".to_owned(), AttributeValue::Text(language.as_str().to_owned())));
    entries.push(("git.blob_oid".to_owned(), AttributeValue::Text(blob_oid.to_owned())));
    entries.push(("git.mode".to_owned(), AttributeValue::Text(mode.to_owned())));
    entries.push((
        "file.size_bytes".to_owned(),
        match size {
            Some(n) => AttributeValue::Unsigned(n),
            None => AttributeValue::Null,
        },
    ));
    proof {
        reveal_strlit("file_path");
        reveal_strlit("language");
        reveal_strlit("git.blob_oid");
        reveal_strlit("git.mode");
        reveal_strlit("file.size_bytes");
        reveal_with_fuel(seq_map, 6);
        let pairs = attribute_pairs(entries@);
        assert(pairs[0].0 == "file_path"@ && pairs[1].0 == "language"@ && pairs[2].0 == "git.blob_oid"@
            && pairs[3].0 == "git.mode"@ && pairs[4].0 == "file.size_bytes"@);
        assert("language"@[0] != "git.mode"@[0]);
        assert forall|i: int, j: int| 0 <= i < pairs.len() && 0 <= j < pairs.len() && i != j implies pairs[i].0 != pairs[j].0 by {
            if pairs[i].0 == pairs[j].0 {
                assert(pairs[i].0.len() == pairs[j].0.len());
                assert(pairs[i].0[0] == pairs[j].0[0]);
            }
        }
        assert(seq_map(pairs) =~= file_attributes(path@, blob_oid@, mode@, size, language@));
    }
    let attributes = Attributes { entries };
    let mut id = chars_of("file:");
    append_chars(&mut id, &chars_of(path));
    let id = string_of(&id);
    EntityObservation {
        snapshot: revision.snapshot(),
        entity: Entity {
            id: EntityId::new(id.as_str()),
            model: ModelId::new(CODE_MODEL_ID),
            kind: "file".to_owned(),
            label: path.to_owned(),
        },
        attributes,
        measurements: Vec::new(),
        scores: Vec::new(),
    }
}

/// The identity of a code symbol: `symbol:`, its file, `#`, its name, `@`
/// and its first line in decimal.
pub open spec fn symbol_identity(path: Seq<char>, name: Seq<char>, line: nat) -> Seq<char> {
    "symbol:"@ + path + "#"@ + name + "@"@ + decimal_digits(line)
}

/// The identifier of the symbol `name` that starts on line `line` of `path`.
pub fn symbol_id(path: &str, name: &str, line: u32) -> (r: String)
    ensures
        r@ == symbol_identity(path@, name@, line as nat),
{
    let mut id = chars_of("symbol:");
    append_chars(&mut id, &chars_of(path));
    append_chars(&mut id, &chars_of("#"));
    append_chars(&mut id, &chars_of(name));
    append_chars(&mut id, &chars_of("@"));
    append_chars(&mut id, &format_u64(line as u64));
    string_of(&id)
}

} // verus!
