//! What the rust-analyzer adapter makes of a language server's answers: the
//! catalog of symbols its document symbols describe, which catalog symbol a
//! call hierarchy item names, and which failed requests are worth a warning.
use vstd::prelude::*;

use crate::analyzers::{
    file_uri, kept_symbol_kind, lsp_error_message, path_file_uri, relative_path, supported_symbol_kind,
    uri_path, uri_relative, workspace_relative, LspError, Position, Range,
};
use crate::model::AnalyzerError;
use crate::model_code::{symbol_id, symbol_identity};
use crate::observation::{
    revision_view, AnalysisCoverage, AnalysisDiagnostic, AnalyzerProvenance, CodeBatch, DiagnosticSeverity, ObservationBatch,
};
use crate::syntax::text_is;
use crate::kernel::RelationObservation;
use crate::lizard::{dependency_relation, relation_between};
use crate::model_code::RevisionId;
use crate::text::{
    append_chars, chars_of, compare_chars, lemma_seq_lt_asymmetric, lemma_seq_lt_irreflexive, lemma_seq_lt_total,
    lemma_seq_lt_transitive, seq_lt, string_of,
};

verus! {

/// A symbol of a document as a language server described it: its name and
/// kind, its range, the start of its selection range (of its range when it
/// has none), and the symbols it holds.
#[derive(Debug)]
pub struct DocumentSymbol {
    pub name: Option<String>,
    pub kind: Option<u64>,
    pub range: Option<Range>,
    pub selection_start: Option<Position>,
    pub children: Vec<DocumentSymbol>,
}

/// A symbol of the semantic catalog: its identifier, name, file (relative to
/// the workspace) and the file's URI, where it is, and whether it can be
/// called.
#[derive(Debug, Clone, PartialEq, Eq)]
pub struct SemanticSymbol {
    pub id: String,
    pub name: String,
    pub path: String,
    pub uri: String,
    pub selection_start: Position,
    pub range: Range,
    pub callable: bool,
}

pub ghost struct SemanticView {
    pub id: Seq<char>,
    pub name: Seq<char>,
    pub path: Seq<char>,
    pub uri: Seq<char>,
    pub selection_start: Position,
    pub range: Range,
    pub callable: bool,
}

impl View for SemanticSymbol {
    type V = SemanticView;

    open spec fn view(&self) -> SemanticView {
        SemanticView {
            id: self.id@,
            name: self.name@,
            path: self.path@,
            uri: self.uri@,
            selection_start: self.selection_start,
            range: self.range,
            callable: self.callable,
        }
    }
}

/// A catalog as plain values.
pub open spec fn semantic_views(c: Seq<SemanticSymbol>) -> Seq<SemanticView> {
    c.map_values(|s: SemanticSymbol| s@)
}

/// The line a symbol starts on, counted from one, when its selection start
/// has a line and the next line fits in a `u32`.
pub open spec fn symbol_line(s: DocumentSymbol) -> Option<u32> {
    match s.selection_start {
        Some(p) => match p.line {
            Some(l) => if l < u32::MAX {
                Some((l + 1) as u32)
            } else {
                None
            },
            None => None,
        },
        None => None,
    }
}

/// Whether the catalog reads a symbol, and the symbols it holds: it has a
/// name, a kind and a line.
pub open spec fn readable(s: DocumentSymbol) -> bool {
    s.name is Some && s.kind is Some && symbol_line(s) is Some
}

/// The LSP kinds of symbols that can be called: method, constructor and
/// function (6, 9 and 12).
pub open spec fn callable_kind(kind: u64) -> bool {
    kind == 6 || kind == 9 || kind == 12
}

/// A path relative to the workspace, empty when it is not below it.
pub open spec fn relative_or_empty(path: Seq<char>, workspace: Seq<char>) -> Seq<char> {
    match workspace_relative(path, workspace) {
        Ok(p) => p,
        Err(_) => Seq::empty(),
    }
}

/// A file's URI, empty when it has none.
pub open spec fn uri_or_empty(path: Seq<char>) -> Seq<char> {
    match path_file_uri(path) {
        Some(u) => u,
        None => Seq::empty(),
    }
}

/// The catalog entry of a readable symbol of the file `path`.
pub open spec fn entry_of(s: DocumentSymbol, path: Seq<char>, workspace: Seq<char>) -> SemanticView {
    let relative = relative_or_empty(path, workspace);
    SemanticView {
        id: symbol_identity(relative, s.name.unwrap()@, symbol_line(s).unwrap() as nat),
        name: s.name.unwrap()@,
        path: relative,
        uri: uri_or_empty(path),
        selection_start: s.selection_start.unwrap(),
        range: match s.range {
            Some(r) => r,
            None => Range { start: None, end: None },
        },
        callable: callable_kind(s.kind.unwrap()),
    }
}

/// The catalog entries that document symbols give, in order: each readable
/// symbol of a kept kind, then those its children give.
pub open spec fn catalog_of(symbols: Seq<DocumentSymbol>, path: Seq<char>, workspace: Seq<char>) -> Seq<SemanticView>
    decreases symbols,
{
    if symbols.len() == 0 {
        Seq::empty()
    } else {
        catalog_of(symbols.subrange(0, symbols.len() - 1), path, workspace) + symbol_catalog(
            symbols[symbols.len() - 1],
            path,
            workspace,
        )
    }
}

/// The catalog entries that one document symbol gives.
pub open spec fn symbol_catalog(s: DocumentSymbol, path: Seq<char>, workspace: Seq<char>) -> Seq<SemanticView>
    decreases s,
{
    if readable(s) {
        (if kept_symbol_kind(s.kind.unwrap()) {
            seq![entry_of(s, path, workspace)]
        } else {
            Seq::empty()
        }) + catalog_of(s.children@, path, workspace)
    } else {
        Seq::empty()
    }
}

/// Adds to `catalog` the entries that the document symbols of the file
/// `path` give.
pub fn collect_document_symbols(symbols: &Vec<DocumentSymbol>, path: &str, workspace: &str, catalog: &mut Vec<SemanticSymbol>)
    ensures
        semantic_views(final(catalog)@) == semantic_views(old(catalog)@) + catalog_of(symbols@, path@, workspace@),
    decreases symbols@,
{
    let ghost start = semantic_views(catalog@);
    let mut i: usize = 0;
    while i < symbols.len()
        invariant
            i <= symbols@.len(),
            semantic_views(catalog@) == start + catalog_of(symbols@.subrange(0, i as int), path@, workspace@),
        decreases symbols@.len() - i,
    {
        assert(symbols@.subrange(0, i + 1).subrange(0, i as int) =~= symbols@.subrange(0, i as int));
        assert(symbols@.subrange(0, i + 1)[i as int] == symbols@[i as int]);
        collect_symbol(&symbols[i], path, workspace, catalog);
        i = i + 1;
    }
    assert(symbols@.subrange(0, i as int) =~= symbols@);
}

/// Adds to `catalog` the entries that one document symbol gives.
fn collect_symbol(s: &DocumentSymbol, path: &str, workspace: &str, catalog: &mut Vec<SemanticSymbol>)
    ensures
        semantic_views(final(catalog)@) == semantic_views(old(catalog)@) + symbol_catalog(*s, path@, workspace@),
    decreases *s,
{
    let ghost start = semantic_views(catalog@);
    let name = match &s.name {
        Some(n) => n,
        None => return,
    };
    let kind = match s.kind {
        Some(k) => k,
        None => return,
    };
    let selection = match s.selection_start {
        Some(p) => p,
        None => return,
    };
    let line = match selection.line {
        Some(l) => l,
        None => return,
    };
    if line >= u32::MAX as u64 {
        return;
    }
    let line = (line + 1) as u32;
    if supported_symbol_kind(kind) {
        let relative = match relative_path(path, workspace) {
            Ok(p) => p,
            Err(_) => String::new(),
        };
        let uri = match file_uri(path) {
            Ok(u) => u,
            Err(_) => String::new(),
        };
        let entry = SemanticSymbol {
            id: symbol_id(relative.as_str(), name.as_str(), line),
            name: name.clone(),
            path: relative,
            uri,
            selection_start: selection,
            range: match s.range {
                Some(r) => r,
                None => Range { start: None, end: None },
            },
            callable: kind == 6 || kind == 9 || kind == 12,
        };
        catalog.push(entry);
        assert(semantic_views(catalog@) =~= start + seq![entry_of(*s, path@, workspace@)]);
    } else {
        assert(semantic_views(catalog@) =~= start + Seq::<SemanticView>::empty());
    }
    let ghost middle = semantic_views(catalog@);
    collect_document_symbols(&s.children, path, workspace, catalog);
    assert(semantic_views(catalog@) =~= start + symbol_catalog(*s, path@, workspace@));
}

// ---------------------------------------------------------------------------
// Call hierarchy items
// ---------------------------------------------------------------------------
/// Whether a catalog entry is the symbol a call hierarchy item names: same
/// file, same name, and the same start of its selection range.
pub open spec fn names_item(s: SemanticView, path: Seq<char>, name: Seq<char>, start: Option<Position>) -> bool {
    s.path == path && s.name == name && start == Some(s.selection_start)
}

/// The first catalog entry that a call hierarchy item names.
pub open spec fn first_named(c: Seq<SemanticView>, path: Seq<char>, name: Seq<char>, start: Option<Position>, o: Option<usize>) -> bool {
    match o {
        Some(i) => i < c.len() && names_item(c[i as int], path, name, start) && forall|j: int|
            0 <= j < i ==> !names_item(#[trigger] c[j], path, name, start),
        None => forall|j: int| 0 <= j < c.len() ==> !names_item(#[trigger] c[j], path, name, start),
    }
}

fn same_position(a: Position, b: Position) -> (r: bool)
    ensures
        r == (a == b),
{
    let lines = match (a.line, b.line) {
        (Some(x), Some(y)) => x == y,
        (None, None) => true,
        _ => false,
    };
    let characters = match (a.character, b.character) {
        (Some(x), Some(y)) => x == y,
        (None, None) => true,
        _ => false,
    };
    lines && characters
}

/// The catalog symbol that a call hierarchy item names, by the item's URI,
/// name (empty when it has none) and selection start. An item without a URI
/// names none; a URI that names no file of the workspace is an error.
pub fn symbol_for_item(
    catalog: &[SemanticSymbol],
    uri: Option<&str>,
    name: Option<&str>,
    start: Option<Position>,
    workspace: &str,
) -> (r: Result<Option<usize>, AnalyzerError>)
    ensures
        match uri {
            None => r matches Ok(None),
            Some(u) => match uri_relative(u@, workspace@) {
                Err(m) => r matches Err(AnalyzerError::Failed(e)) && e@ == m,
                Ok(p) => r matches Ok(o) && first_named(
                    semantic_views(catalog@),
                    p,
                    match name {
                        Some(n) => n@,
                        None => Seq::empty(),
                    },
                    start,
                    o,
                ),
            },
        },
{
    let u = match uri {
        Some(u) => u,
        None => return Ok(None),
    };
    let path = match uri_path(u, workspace) {
        Ok(p) => p,
        Err(e) => return Err(e),
    };
    let wanted = match name {
        Some(n) => n,
        None => "",
    };
    proof {
        reveal_strlit("");
    }
    let ghost c = semantic_views(catalog@);
    let ghost key = match name {
        Some(n) => n@,
        None => Seq::<char>::empty(),
    };
    assert(wanted@ == key);
    let mut i: usize = 0;
    while i < catalog.len()
        invariant
            c == semantic_views(catalog@),
            uri == Some(u),
            uri_relative(u@, workspace@) == Ok::<Seq<char>, Seq<char>>(path@),
            wanted@ == key,
            key == match name {
                Some(n) => n@,
                None => Seq::<char>::empty(),
            },
            i <= catalog@.len(),
            forall|j: int| 0 <= j < i ==> !names_item(#[trigger] c[j], path@, key, start),
        decreases catalog@.len() - i,
    {
        let s = &catalog[i];
        assert(c[i as int] == s@);
        let here = match start {
            Some(p) => text_is(s.path.as_str(), path.as_str()) && text_is(s.name.as_str(), wanted) && same_position(
                s.selection_start,
                p,
            ),
            None => false,
        };
        assert(here == names_item(c[i as int], path@, key, start));
        if here {
            return Ok(Some(i));
        }
        i = i + 1;
    }
    Ok(None)
}

// ---------------------------------------------------------------------------
// Failed requests
// ---------------------------------------------------------------------------
/// The name under which the rust-analyzer adapter reports.
pub const RUST_ANALYZER_OBSERVER: &'static str = "lsp.rust-analyzer";

/// The warning for a request about the symbol `name` of the file `path`
/// that failed: none when the server answered with an error, which only
/// means it has nothing to say; else that `what` is unavailable, and why.
pub open spec fn request_warning(error: LspError, path: Seq<char>, what: Seq<char>, name: Seq<char>, g: Option<AnalysisDiagnostic>) -> bool {
    match error {
        LspError::Server(_) => g is None,
        _ => match g {
            Some(d) => {
                &&& d.severity == DiagnosticSeverity::Warning
                &&& d.analyzer@ == RUST_ANALYZER_OBSERVER@
                &&& d.message@ == what + " unavailable for "@ + name + ": "@ + lsp_error_message(error)
                &&& d.file_path matches Some(p) && p@ == path
            },
            None => false,
        },
    }
}

/// The warning, if any, for a failed request about the symbol `name` of the
/// file `path`.
pub fn request_failure(error: &LspError, path: &str, what: &str, name: &str) -> (g: Option<AnalysisDiagnostic>)
    ensures
        request_warning(*error, path@, what@, name@, g),
{
    match error {
        LspError::Server(_) => None,
        _ => {
            let mut message = chars_of(what);
            append_chars(&mut message, &chars_of(" unavailable for "));
            append_chars(&mut message, &chars_of(name));
            append_chars(&mut message, &chars_of(": "));
            append_chars(&mut message, &chars_of(error.message().as_str()));
            Some(
                AnalysisDiagnostic {
                    severity: DiagnosticSeverity::Warning,
                    analyzer: RUST_ANALYZER_OBSERVER.to_owned(),
                    message: string_of(&message),
                    file_path: Some(path.to_owned()),
                },
            )
        },
    }
}

// ---------------------------------------------------------------------------
// Dependency edges
// ---------------------------------------------------------------------------
/// A dependency edge as text: its kind, and the symbols it goes from and to.
pub type EdgeView = (Seq<char>, Seq<char>, Seq<char>);

/// The order of edges: by kind, then by source, then by target.
pub open spec fn edge_lt(a: EdgeView, b: EdgeView) -> bool {
    seq_lt(a.0, b.0) || (a.0 == b.0 && (seq_lt(a.1, b.1) || (a.1 == b.1 && seq_lt(a.2, b.2))))
}

proof fn lemma_edge_lt_transitive(a: EdgeView, b: EdgeView, c: EdgeView)
    requires
        edge_lt(a, b),
        edge_lt(b, c),
    ensures
        edge_lt(a, c),
{
    if seq_lt(a.0, b.0) && seq_lt(b.0, c.0) {
        lemma_seq_lt_transitive(a.0, b.0, c.0);
    }
    if a.0 == b.0 && b.0 == c.0 {
        if seq_lt(a.1, b.1) && seq_lt(b.1, c.1) {
            lemma_seq_lt_transitive(a.1, b.1, c.1);
        }
        if a.1 == b.1 && b.1 == c.1 && seq_lt(a.2, b.2) && seq_lt(b.2, c.2) {
            lemma_seq_lt_transitive(a.2, b.2, c.2);
        }
    }
}

proof fn lemma_edge_lt_asymmetric(a: EdgeView, b: EdgeView)
    requires
        edge_lt(a, b),
    ensures
        !edge_lt(b, a),
        a != b,
{
    if seq_lt(a.0, b.0) {
        lemma_seq_lt_asymmetric(a.0, b.0);
    } else if seq_lt(a.1, b.1) {
        lemma_seq_lt_asymmetric(a.1, b.1);
        lemma_seq_lt_irreflexive(a.0);
    } else {
        lemma_seq_lt_asymmetric(a.2, b.2);
        lemma_seq_lt_irreflexive(a.0);
        lemma_seq_lt_irreflexive(a.1);
    }
}

proof fn lemma_edge_lt_total(a: EdgeView, b: EdgeView)
    ensures
        a == b || edge_lt(a, b) || edge_lt(b, a),
{
    lemma_seq_lt_total(a.0, b.0);
    lemma_seq_lt_total(a.1, b.1);
    lemma_seq_lt_total(a.2, b.2);
}

/// The dependency edges found so far, each once, in increasing order.
pub struct EdgeSet {
    edges: Vec<(String, String, String)>,
}

pub open spec fn edge_view(e: (String, String, String)) -> EdgeView {
    (e.0@, e.1@, e.2@)
}

impl View for EdgeSet {
    type V = Seq<EdgeView>;

    closed spec fn view(&self) -> Seq<EdgeView> {
        self.edges@.map_values(|e: (String, String, String)| edge_view(e))
    }
}

/// Edges in strictly increasing order: each at most once.
pub open spec fn edges_sorted(v: Seq<EdgeView>) -> bool {
    forall|a: int, b: int| 0 <= a < b < v.len() ==> edge_lt(#[trigger] v[a], #[trigger] v[b])
}

fn edge_compare(e: &(String, String, String), kind: &str, from: &str, to: &str) -> (r: i8)
    ensures
        r == 0 <==> edge_view(*e) == (kind@, from@, to@),
        r < 0 <==> edge_lt(edge_view(*e), (kind@, from@, to@)),
        r > 0 <==> edge_lt((kind@, from@, to@), edge_view(*e)),
{
    let ghost t = (kind@, from@, to@);
    proof {
        lemma_edge_lt_total(edge_view(*e), t);
        if edge_lt(edge_view(*e), t) {
            lemma_edge_lt_asymmetric(edge_view(*e), t);
        }
        if edge_lt(t, edge_view(*e)) {
            lemma_edge_lt_asymmetric(t, edge_view(*e));
        }
    }
    let c = compare_chars(&chars_of(e.0.as_str()), &chars_of(kind));
    if c != 0 {
        proof {
            if c > 0 {
                lemma_seq_lt_asymmetric(t.0, e.0@);
            } else {
                lemma_seq_lt_asymmetric(e.0@, t.0);
            }
        }
        return c;
    }
    let c = compare_chars(&chars_of(e.1.as_str()), &chars_of(from));
    if c != 0 {
        proof {
            lemma_seq_lt_irreflexive(t.0);
            if c > 0 {
                lemma_seq_lt_asymmetric(t.1, e.1@);
            } else {
                lemma_seq_lt_asymmetric(e.1@, t.1);
            }
        }
        return c;
    }
    proof {
        lemma_seq_lt_irreflexive(t.0);
        lemma_seq_lt_irreflexive(t.1);
    }
    compare_chars(&chars_of(e.2.as_str()), &chars_of(to))
}

impl EdgeSet {
    pub closed spec fn wf(&self) -> bool {
        edges_sorted(self@)
    }

    /// No edges.
    pub fn new() -> (r: Self)
        ensures
            r.wf(),
            r@ == Seq::<EdgeView>::empty(),
    {
        let r = EdgeSet { edges: Vec::new() };
        assert(r@ =~= Seq::<EdgeView>::empty());
        r
    }

    /// Adds the edge of kind `kind` from `from` to `to`, unless it is there.
    pub fn insert(&mut self, kind: &str, from: &str, to: &str)
        requires
            old(self).wf(),
        ensures
            final(self).wf(),
            final(self)@.to_set() == old(self)@.to_set().insert((kind@, from@, to@)),
    {
        let ghost t = (kind@, from@, to@);
        let ghost v0 = self@;
        let mut p: usize = 0;
        let mut found = false;
        while !found && p < self.edges.len()
            invariant
                p <= self.edges@.len(),
                self@ == v0,
                t == (kind@, from@, to@),
                edges_sorted(v0),
                forall|k: int| 0 <= k < p ==> edge_lt(#[trigger] v0[k], t),
                found ==> p < v0.len() && !edge_lt(v0[p as int], t),
            decreases self.edges@.len() - p + (if found { 0int } else { 1int }),
        {
            assert(v0[p as int] == edge_view(self.edges@[p as int]));
            if edge_compare(&self.edges[p], kind, from, to) < 0 {
                p = p + 1;
            } else {
                found = true;
            }
        }
        if p < self.edges.len() && edge_compare(&self.edges[p], kind, from, to) == 0 {
            assert(v0[p as int] == edge_view(self.edges@[p as int]));
            assert(v0.to_set().insert(t) =~= v0.to_set());
            return;
        }
        proof {
            if p < v0.len() {
                assert(v0[p as int] == edge_view(self.edges@[p as int]));
                assert(edge_lt(t, v0[p as int]));
                assert forall|k: int| p <= k < v0.len() implies edge_lt(t, #[trigger] v0[k]) by {
                    if k > p {
                        lemma_edge_lt_transitive(t, v0[p as int], v0[k]);
                    }
                }
            }
        }
        self.edges.insert(p, (kind.to_owned(), from.to_owned(), to.to_owned()));
        let ghost v1 = self@;
        assert(v1 =~= v0.insert(p as int, t));
        proof {
            assert forall|a: int, b: int| 0 <= a < b < v1.len() implies edge_lt(#[trigger] v1[a], #[trigger] v1[b]) by {
                if b < p {
                } else if b == p {
                    assert(v1[a] == v0[a]);
                } else if a < p {
                    assert(v1[b] == v0[b - 1]);
                    assert(edge_lt(v0[a], t));
                    assert(edge_lt(t, v0[b - 1]));
                    lemma_edge_lt_transitive(v0[a], t, v0[b - 1]);
                } else if a == p {
                    assert(v1[b] == v0[b - 1]);
                } else {
                    assert(v1[a] == v0[a - 1] && v1[b] == v0[b - 1]);
                }
            }
            assert forall|x: EdgeView| v1.to_set().contains(x) <==> v0.to_set().insert(t).contains(x) by {
                if v1.to_set().contains(x) {
                    let i = choose|i: int| 0 <= i < v1.len() && v1[i] == x;
                    if i > p {
                        assert(v1[i] == v0[i - 1]);
                    } else if i < p {
                        assert(v1[i] == v0[i]);
                    }
                }
                if v0.to_set().contains(x) {
                    let i = choose|i: int| 0 <= i < v0.len() && v0[i] == x;
                    if i >= p {
                        assert(v1[i + 1] == v0[i]);
                    } else {
                        assert(v1[i] == v0[i]);
                    }
                }
                if x == t {
                    assert(v1[p as int] == t);
                }
            }
            assert(v1.to_set() =~= v0.to_set().insert(t));
        }
    }

    /// Records that `source` refers to `target`; a symbol referring to itself
    /// is no dependency.
    pub fn insert_reference(&mut self, source: &str, target: &str)
        requires
            old(self).wf(),
        ensures
            final(self).wf(),
            source@ == target@ ==> final(self)@ == old(self)@,
            source@ != target@ ==> final(self)@.to_set() == old(self)@.to_set().insert(("references"@, source@, target@)),
    {
        let same = compare_chars(&chars_of(source), &chars_of(target)) == 0;
        if !same {
            self.insert("references", source, target);
        }
    }

    /// The dependency relations of the edges, in their order, observed at
    /// `revision`.
    pub fn relations(&self, revision: &RevisionId) -> (r: Vec<RelationObservation>)
        ensures
            r@.len() == self@.len(),
            forall|i: int| 0 <= i < r@.len() ==> relation_between(
                #[trigger] r@[i],
                self@[i].0,
                self@[i].1,
                self@[i].2,
                revision.repository@,
                revision.commit@,
            ),
    {
        let mut r: Vec<RelationObservation> = Vec::new();
        let mut i: usize = 0;
        while i < self.edges.len()
            invariant
                i <= self.edges@.len(),
                r@.len() == i,
                forall|k: int| 0 <= k < i ==> relation_between(
                    #[trigger] r@[k],
                    self@[k].0,
                    self@[k].1,
                    self@[k].2,
                    revision.repository@,
                    revision.commit@,
                ),
            decreases self.edges@.len() - i,
        {
            let e = &self.edges[i];
            assert(self@[i as int] == edge_view(*e));
            r.push(dependency_relation(revision, e.0.as_str(), e.1.as_str(), e.2.as_str()));
            i = i + 1;
        }
        r
    }
}

/// The configuration a semantic batch records in its provenance.
pub const SEMANTIC_CONFIGURATION: &'static str = "references-calls-v1";

/// Whether `p` records the rust-analyzer observer of this package version.
pub open spec fn semantic_provenance(p: AnalyzerProvenance) -> bool {
    &&& p.analyzer@ == RUST_ANALYZER_OBSERVER@
    &&& p.version@ == crate::git::PACKAGE_VERSION@
    &&& p.configuration_digest matches Some(d) && d@ == SEMANTIC_CONFIGURATION@
    &&& p.source is None
}

/// The batch of what a language server told about the code at `revision`:
/// partial coverage, the rust-analyzer provenance, the diagnostics met on
/// the way, and a dependency for each edge, each once and in edge order.
pub fn semantic_batch(revision: &RevisionId, edges: &EdgeSet, diagnostics: Vec<AnalysisDiagnostic>) -> (b: CodeBatch)
    ensures
        revision_view(b.revision) == revision_view(*revision),
        b.coverage == AnalysisCoverage::Partial,
        b.provenance@.len() == 1 && semantic_provenance(b.provenance@[0]),
        b.symbols@.len() == 0,
        b.diagnostics@ == diagnostics@,
        b.dependencies@.len() == edges@.len(),
        forall|i: int| 0 <= i < b.dependencies@.len() ==> relation_between(
            #[trigger] b.dependencies@[i],
            edges@[i].0,
            edges@[i].1,
            edges@[i].2,
            revision.repository@,
            revision.commit@,
        ),
{
    let mut b: CodeBatch = ObservationBatch::empty(RevisionId::new(revision.repository.as_str(), revision.commit.as_str()));
    b.coverage = AnalysisCoverage::Partial;
    b.provenance.push(AnalyzerProvenance {
        analyzer: RUST_ANALYZER_OBSERVER.to_owned(),
        version: crate::git::PACKAGE_VERSION.to_owned(),
        configuration_digest: Some(SEMANTIC_CONFIGURATION.to_owned()),
        source: None,
    });
    b.diagnostics = diagnostics;
    b.dependencies = edges.relations(revision);
    b
}

// ---------------------------------------------------------------------------
// The order of a semantic survey
// ---------------------------------------------------------------------------
/// How many times the first document's symbols are asked for while the
/// server may still be loading the workspace; other documents are asked once.
pub const WORKSPACE_SYMBOL_ATTEMPTS: u32 = 20;

/// The milliseconds to wait between two requests for the first document's
/// symbols.
pub const SYMBOL_RETRY_DELAY_MS: u64 = 250;

/// How many times a document's symbols are asked for.
pub open spec fn symbol_attempts(wait_for_workspace: bool) -> u32 {
    if wait_for_workspace {
        WORKSPACE_SYMBOL_ATTEMPTS
    } else {
        1
    }
}

/// Whether to ask again for a document's symbols after attempt `attempt`
/// (from zero) answered with some symbols or none: only while none came and
/// attempts are left.
pub fn ask_symbols_again(wait_for_workspace: bool, attempt: u32, some_symbols: bool) -> (r: bool)
    ensures
        r == (!some_symbols && attempt + 1 < symbol_attempts(wait_for_workspace)),
{
    let attempts: u32 = if wait_for_workspace { WORKSPACE_SYMBOL_ATTEMPTS } else { 1 };
    !some_symbols && attempt < attempts - 1
}

/// A request of a semantic survey of the symbol catalog.
#[derive(Debug, Clone, Copy, PartialEq, Eq)]
pub enum SemanticRequest {
    /// Ask for the references to symbol `i` of the catalog.
    References(usize),
    /// Ask for the calls that symbol `i` of the catalog makes.
    Calls(usize),
    /// The survey is over.
    Finish,
}

/// The request that opens the survey from symbol `i` on.
pub open spec fn survey_from(n: nat, i: int) -> SemanticRequest {
    if i < n {
        SemanticRequest::References(i as usize)
    } else {
        SemanticRequest::Finish
    }
}

/// The request after `last` (none at the start): the references to every
/// symbol in catalog order, each followed by its outgoing calls when it can
/// be called.
pub open spec fn survey_next(catalog: Seq<SemanticSymbol>, last: Option<SemanticRequest>) -> SemanticRequest {
    match last {
        None => survey_from(catalog.len(), 0),
        Some(SemanticRequest::References(i)) => if catalog[i as int].callable {
            SemanticRequest::Calls(i)
        } else {
            survey_from(catalog.len(), i + 1)
        },
        Some(SemanticRequest::Calls(i)) => survey_from(catalog.len(), i + 1),
        Some(SemanticRequest::Finish) => SemanticRequest::Finish,
    }
}

/// Decides the next request of a semantic survey (see `survey_next`).
pub fn survey_step(catalog: &[SemanticSymbol], last: Option<SemanticRequest>) -> (r: SemanticRequest)
    requires
        last matches Some(SemanticRequest::References(i)) ==> i < catalog@.len(),
        last matches Some(SemanticRequest::Calls(i)) ==> i < catalog@.len(),
    ensures
        r == survey_next(catalog@, last),
{
    match last {
        None => if 0 < catalog.len() {
            SemanticRequest::References(0)
        } else {
            SemanticRequest::Finish
        },
        Some(SemanticRequest::References(i)) => if catalog[i].callable {
            SemanticRequest::Calls(i)
        } else if i < catalog.len() - 1 {
            SemanticRequest::References(i + 1)
        } else {
            SemanticRequest::Finish
        },
        Some(SemanticRequest::Calls(i)) => if i < catalog.len() - 1 {
            SemanticRequest::References(i + 1)
        } else {
            SemanticRequest::Finish
        },
        Some(SemanticRequest::Finish) => SemanticRequest::Finish,
    }
}

} // verus!
