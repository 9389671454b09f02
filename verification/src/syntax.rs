//! Rust syntax analysis over a Tree-sitter syntax tree: which nodes are
//! symbols, their names, qualified names, signatures and metrics, and the
//! observations they make. The tree is read as the list of its nodes in
//! preorder, each with its depth below the root.
use vstd::prelude::*;
use vstd::utf8::{valid_utf8, decode_utf8};

use crate::coverage::from_utf8;
use crate::runtime::text_of;
use crate::analyzers::{module_parts, rust_module_parts};
use crate::commands::texts;
use crate::coverage::{join_strings, joined};
use crate::git::PACKAGE_VERSION;
use crate::identity::{EntityId, ModelId};
use crate::kernel::{
    AttributeValue, AttributeView, Attributes, Entity, EntityObservation, Measurement, RelationObservation, attribute_pairs,
    text_value, u32_value,
};
use crate::lizard::{count_measurement, counted, file_contains, file_contains_symbol};
use crate::maps::seq_map;
use crate::model::{AnalyzerError, ArtifactContent};
use crate::model_code::{
    frequency_name, node_kind_name, repository_world, symbol_id, symbol_identity, NodeKind, RecentFrequency, RevisionId,
    CODE_MODEL_ID,
};
use crate::numbers::{count_bits, exact_double, EXACT_DOUBLE_LIMIT};
use crate::observation::{revision_view, AnalysisCoverage, AnalysisDiagnostic, AnalyzerProvenance, CodeBatch, DiagnosticSeverity, ObservationBatch};
use crate::text::{append_chars, chars_of, contains_chars, contains_seq, same_chars, string_of, trim, trimmed};

verus! {

/// A Tree-sitter parser, opaque to the library.
#[verifier::external_type_specification]
#[verifier::external_body]
pub struct ExParser(tree_sitter::Parser);

/// One node of a syntax tree as the parser reported it: its kind, whether it
/// is named, whether it holds a syntax error, the field under which its
/// parent holds it, its depth below the root, its first and last rows, and
/// the byte range of its text.
#[derive(Debug, Clone, Copy)]
pub struct SyntaxNode {
    pub kind: &'static str,
    pub named: bool,
    pub erroneous: bool,
    pub field: Option<&'static str>,
    pub depth: u32,
    pub rows: (usize, usize),
    pub bytes: (usize, usize),
}

pub ghost struct SyntaxNodeView {
    pub kind: Seq<char>,
    pub named: bool,
    pub erroneous: bool,
    pub field: Option<Seq<char>>,
    pub depth: u32,
    pub rows: (usize, usize),
    pub bytes: (usize, usize),
}

impl View for SyntaxNode {
    type V = SyntaxNodeView;

    open spec fn view(&self) -> SyntaxNodeView {
        SyntaxNodeView {
            kind: self.kind@,
            named: self.named,
            erroneous: self.erroneous,
            field: match self.field {
                Some(f) => Some(f@),
                None => None,
            },
            depth: self.depth,
            rows: self.rows,
            bytes: self.bytes,
        }
    }
}

/// The nodes of a tree as plain values.
pub open spec fn views(nodes: Seq<SyntaxNode>) -> Seq<SyntaxNodeView> {
    nodes.map_values(|n: SyntaxNode| n@)
}

/// The nodes of the Rust syntax tree of `source`, in preorder; `None` when
/// the parser produced no tree.
pub uninterp spec fn rust_syntax(source: Seq<u8>) -> Option<Seq<SyntaxNodeView>>;

/// `Parser::new`, then `Parser::set_language` with the grammar of
/// `tree_sitter_rust`; the error would be the grammar's version mismatch as
/// text. The grammar this crate is built with has an ABI version that the
/// parser accepts, so the language is always set.
#[verifier::external_body]
fn rust_parser() -> (r: Result<tree_sitter::Parser, String>)
    ensures
        r is Ok,
{
    let mut parser = tree_sitter::Parser::new();
    match parser.set_language(&tree_sitter_rust::LANGUAGE.into()) {
        Ok(()) => Ok(parser),
        Err(error) => Err(error.to_string()),
    }
}

/// `Parser::parse` of `source` with a parser that `rust_parser` made, the
/// tree read back with a `TreeCursor` in preorder: each node's kind,
/// `is_named`, `has_error`, field name, depth, rows and bytes.
#[verifier::external_body]
fn parse_rust(parser: &mut tree_sitter::Parser, source: &[u8]) -> (r: Option<Vec<SyntaxNode>>)
    ensures
        rust_syntax(source@) == match r {
            Some(nodes) => Some(views(nodes@)),
            None => None,
        },
{
    let Some(tree) = parser.parse(source, None) else { return None };
    let (mut cursor, mut nodes) = (tree.walk(), Vec::new());
    loop {
        let node = cursor.node();
        let (start, end) = (node.start_position(), node.end_position());
        nodes.push(SyntaxNode { kind: node.kind(), named: node.is_named(), erroneous: node.has_error(), field: cursor.field_name(), depth: cursor.depth(), rows: (start.row, end.row), bytes: (node.start_byte(), node.end_byte()) });
        if cursor.goto_first_child() { continue; }
        while !cursor.goto_next_sibling() {
            if !cursor.goto_parent() { return Some(nodes); }
        }
    }
}

// ---------------------------------------------------------------------------
// The shape of the tree
// ---------------------------------------------------------------------------
/// The last node before `j` that is shallower than node `k`.
pub open spec fn last_shallower(d: Seq<SyntaxNodeView>, k: int, j: int) -> Option<int>
    decreases j,
{
    if j <= 0 {
        None
    } else if d[j - 1].depth < d[k].depth {
        Some(j - 1)
    } else {
        last_shallower(d, k, j - 1)
    }
}

/// The parent of node `k`: the last node before it that is shallower.
pub open spec fn parent_of(d: Seq<SyntaxNodeView>, k: int) -> Option<int> {
    last_shallower(d, k, k)
}

/// What `last_shallower` finds: a shallower node with none shallower after it.
pub proof fn lemma_last_shallower(d: Seq<SyntaxNodeView>, k: int, j: int)
    requires
        0 <= k < d.len(),
        0 <= j <= d.len(),
    ensures
        match last_shallower(d, k, j) {
            Some(m) => 0 <= m < j && d[m].depth < d[k].depth && forall|x: int|
                m < x < j ==> #[trigger] d[x].depth >= d[k].depth,
            None => forall|x: int| 0 <= x < j ==> #[trigger] d[x].depth >= d[k].depth,
        },
    decreases j,
{
    if j > 0 && d[j - 1].depth >= d[k].depth {
        lemma_last_shallower(d, k, j - 1);
    }
}

/// A node's parent comes before it.
pub proof fn lemma_parent_before(d: Seq<SyntaxNodeView>, k: int)
    requires
        0 <= k < d.len(),
    ensures
        parent_of(d, k) matches Some(p) ==> 0 <= p < k && d[p].depth < d[k].depth,
{
    lemma_last_shallower(d, k, k);
}

/// Once a node at least as shallow as `a` follows it, no later node is a
/// child of `a`.
pub proof fn lemma_no_child_after(d: Seq<SyntaxNodeView>, a: int, b: int, j: int)
    requires
        0 <= a < b <= j < d.len(),
        d[b].depth <= d[a].depth,
    ensures
        parent_of(d, j) != Some(a),
{
    lemma_last_shallower(d, j, j);
    if parent_of(d, j) == Some(a) {
        if b < j {
            assert(d[b].depth >= d[j].depth);
        }
    }
}

/// An index into a node list as an integer.
pub open spec fn as_index(o: Option<usize>) -> Option<int> {
    match o {
        Some(i) => Some(i as int),
        None => None,
    }
}

/// The parent of every node.
pub fn parents_of(nodes: &[SyntaxNode]) -> (r: Vec<Option<usize>>)
    ensures
        r@.len() == nodes@.len(),
        forall|k: int| 0 <= k < nodes@.len() ==> as_index(#[trigger] r@[k]) == parent_of(views(nodes@), k),
{
    let ghost d = views(nodes@);
    let mut r: Vec<Option<usize>> = Vec::new();
    let mut k: usize = 0;
    while k < nodes.len()
        invariant
            d == views(nodes@),
            k <= nodes@.len(),
            r@.len() == k,
            forall|x: int| 0 <= x < k ==> as_index(#[trigger] r@[x]) == parent_of(d, x),
        decreases nodes@.len() - k,
    {
        let depth = nodes[k].depth;
        let mut j: usize = k;
        while j > 0 && nodes[j - 1].depth >= depth
            invariant
                d == views(nodes@),
                k < nodes@.len(),
                j <= k,
                depth == d[k as int].depth,
                last_shallower(d, k as int, k as int) == last_shallower(d, k as int, j as int),
            decreases j,
        {
            assert(d[j - 1].depth == nodes@[j - 1].depth);
            j = j - 1;
        }
        if j == 0 {
            r.push(None);
        } else {
            assert(d[j - 1].depth == nodes@[j - 1].depth);
            r.push(Some(j - 1));
        }
        k = k + 1;
    }
    r
}

/// Whether two texts are equal.
pub fn text_is(a: &str, b: &str) -> (r: bool)
    ensures
        r == (a@ == b@),
{
    same_chars(&chars_of(a), &chars_of(b))
}

/// Whether `parents` holds the parent of every node of `d`.
pub open spec fn parents_wf(d: Seq<SyntaxNodeView>, parents: Seq<Option<usize>>) -> bool {
    &&& parents.len() == d.len()
    &&& forall|k: int| 0 <= k < d.len() ==> as_index(#[trigger] parents[k]) == parent_of(d, k)
}

/// Once a node at least as shallow as `a` follows it at `b`, no node from
/// `b` on is a child of `a`.
pub proof fn lemma_no_child_from(d: Seq<SyntaxNodeView>, a: int, b: int)
    requires
        0 <= a < b < d.len(),
        d[b].depth <= d[a].depth,
    ensures
        forall|x: int| b <= x < d.len() ==> parent_of(d, x) != Some(a),
{
    assert forall|x: int| b <= x < d.len() implies parent_of(d, x) != Some(a) by {
        lemma_no_child_after(d, a, b, x);
    }
}

/// The text of a node: its bytes, when they lie in `src` and are UTF-8.
pub open spec fn node_text(n: SyntaxNodeView, src: Seq<u8>) -> Option<Seq<char>> {
    if n.bytes.0 <= n.bytes.1 <= src.len() && valid_utf8(src.subrange(n.bytes.0 as int, n.bytes.1 as int)) {
        Some(decode_utf8(src.subrange(n.bytes.0 as int, n.bytes.1 as int)))
    } else {
        None
    }
}

/// The text of `node` in `source` (`Node::utf8_text`).
pub fn text_of_node(node: &SyntaxNode, source: &[u8]) -> (r: Option<String>)
    ensures
        text_of(r) == node_text(node@, source@),
{
    let (start, end) = node.bytes;
    if start <= end && end <= source.len() {
        match from_utf8(vstd::slice::slice_subrange(source, start, end)) {
            Ok(t) => Some(t.to_owned()),
            Err(_) => None,
        }
    } else {
        None
    }
}

/// The first child of `a` at `j` or later that its parent holds under the
/// field `f`.
pub open spec fn field_child_from(d: Seq<SyntaxNodeView>, a: int, f: Seq<char>, j: int) -> Option<int>
    decreases d.len() - j,
{
    if j < 0 || j >= d.len() {
        None
    } else if parent_of(d, j) == Some(a) && d[j].field == Some(f) {
        Some(j)
    } else {
        field_child_from(d, a, f, j + 1)
    }
}

/// The child that `a` holds under the field `f` (`Node::child_by_field_name`).
pub open spec fn field_child(d: Seq<SyntaxNodeView>, a: int, f: Seq<char>) -> Option<int> {
    field_child_from(d, a, f, a + 1)
}

proof fn lemma_field_child_none(d: Seq<SyntaxNodeView>, a: int, f: Seq<char>, j: int)
    requires
        0 <= j,
        forall|x: int| j <= x < d.len() ==> parent_of(d, x) != Some(a),
    ensures
        field_child_from(d, a, f, j) == None::<int>,
    decreases d.len() - j,
{
    if j < d.len() {
        lemma_field_child_none(d, a, f, j + 1);
    }
}

proof fn lemma_field_child_bounds(d: Seq<SyntaxNodeView>, a: int, f: Seq<char>, j: int)
    ensures
        field_child_from(d, a, f, j) matches Some(c) ==> j <= c < d.len() && parent_of(d, c) == Some(a),
    decreases d.len() - j,
{
    if 0 <= j < d.len() && !(parent_of(d, j) == Some(a) && d[j].field == Some(f)) {
        lemma_field_child_bounds(d, a, f, j + 1);
    }
}

/// The child that node `a` holds under the field `f`.
pub fn field_child_of(nodes: &[SyntaxNode], parents: &Vec<Option<usize>>, a: usize, f: &str) -> (r: Option<usize>)
    requires
        a < nodes@.len(),
        parents_wf(views(nodes@), parents@),
    ensures
        as_index(r) == field_child(views(nodes@), a as int, f@),
        r matches Some(c) ==> a < c < nodes@.len(),
{
    let ghost d = views(nodes@);
    proof {
        lemma_field_child_bounds(d, a as int, f@, a + 1);
    }
    let n = nodes.len();
    let mut j: usize = a + 1;
    while j < nodes.len() && nodes[j].depth > nodes[a].depth
        invariant
            d == views(nodes@),
            parents_wf(d, parents@),
            a < j <= nodes@.len(),
            field_child_from(d, a as int, f@, j as int) == field_child(d, a as int, f@),
        decreases nodes@.len() - j,
    {
        let is_child = match parents[j] {
            Some(p) => p == a,
            None => false,
        };
        assert(is_child == (parent_of(d, j as int) == Some(a as int)));
        let held = match nodes[j].field {
            Some(name) => text_is(name, f),
            None => false,
        };
        assert(held == (d[j as int].field == Some(f@)));
        if is_child && held {
            return Some(j);
        }
        j = j + 1;
    }
    proof {
        if j < nodes@.len() {
            assert(d[j as int].depth == nodes@[j as int].depth);
            lemma_no_child_from(d, a as int, j as int);
        }
        lemma_field_child_none(d, a as int, f@, j as int);
    }
    None
}

/// The text of the child that `a` holds under the field `f`.
pub open spec fn field_text(d: Seq<SyntaxNodeView>, src: Seq<u8>, a: int, f: Seq<char>) -> Option<Seq<char>> {
    match field_child(d, a, f) {
        Some(c) => node_text(d[c], src),
        None => None,
    }
}

/// The text of the child that node `a` holds under the field `f`.
pub fn field_text_of(nodes: &[SyntaxNode], parents: &Vec<Option<usize>>, source: &[u8], a: usize, f: &str) -> (r: Option<String>)
    requires
        a < nodes@.len(),
        parents_wf(views(nodes@), parents@),
    ensures
        text_of(r) == field_text(views(nodes@), source@, a as int, f@),
{
    match field_child_of(nodes, parents, a, f) {
        Some(c) => text_of_node(&nodes[c], source),
        None => None,
    }
}

/// The number of named children of `p` at `j` or later.
pub open spec fn named_children_from(d: Seq<SyntaxNodeView>, p: int, j: int) -> nat
    decreases d.len() - j,
{
    if j < 0 || j >= d.len() {
        0
    } else {
        (if parent_of(d, j) == Some(p) && d[j].named {
            1nat
        } else {
            0nat
        }) + named_children_from(d, p, j + 1)
    }
}

proof fn lemma_named_children_none(d: Seq<SyntaxNodeView>, p: int, j: int)
    requires
        0 <= j,
        forall|x: int| j <= x < d.len() ==> parent_of(d, x) != Some(p),
    ensures
        named_children_from(d, p, j) == 0,
    decreases d.len() - j,
{
    if j < d.len() {
        lemma_named_children_none(d, p, j + 1);
    }
}

/// The number of named children of `p` (`Node::named_child_count`).
pub open spec fn named_child_count(d: Seq<SyntaxNodeView>, p: int) -> nat {
    named_children_from(d, p, p + 1)
}

/// The number of parameters of a function: the named children of its
/// `parameters` field, at most `u32::MAX`; zero without that field.
pub open spec fn parameter_count(d: Seq<SyntaxNodeView>, k: int) -> u32 {
    match field_child(d, k, "parameters"@) {
        Some(p) => if named_child_count(d, p) > u32::MAX {
            u32::MAX
        } else {
            named_child_count(d, p) as u32
        },
        None => 0,
    }
}

/// The number of parameters of the function at node `k`.
pub fn parameters_of(nodes: &[SyntaxNode], parents: &Vec<Option<usize>>, k: usize) -> (r: u32)
    requires
        k < nodes@.len(),
        parents_wf(views(nodes@), parents@),
    ensures
        r == parameter_count(views(nodes@), k as int),
{
    let ghost d = views(nodes@);
    let p = match field_child_of(nodes, parents, k, "parameters") {
        Some(p) => p,
        None => return 0,
    };
    let n = nodes.len();
    let mut count: usize = 0;
    let mut j: usize = p + 1;
    while j < nodes.len() && nodes[j].depth > nodes[p].depth
        invariant
            d == views(nodes@),
            parents_wf(d, parents@),
            p < j <= nodes@.len(),
            count <= j - p - 1,
            count + named_children_from(d, p as int, j as int) == named_child_count(d, p as int),
        decreases nodes@.len() - j,
    {
        let is_child = match parents[j] {
            Some(q) => q == p,
            None => false,
        };
        assert(is_child == (parent_of(d, j as int) == Some(p as int)));
        assert(nodes[j as int].named == d[j as int].named);
        if is_child && nodes[j].named {
            count = count + 1;
        }
        j = j + 1;
    }
    proof {
        if j < nodes@.len() {
            assert(d[j as int].depth == nodes@[j as int].depth);
            lemma_no_child_from(d, p as int, j as int);
        }
        lemma_named_children_none(d, p as int, j as int);
    }
    if count > u32::MAX as usize {
        u32::MAX
    } else {
        count as u32
    }
}

/// The signature of a symbol: its text up to its body (all of it without
/// one), trimmed; none when empty or not UTF-8.
pub open spec fn signature_of(d: Seq<SyntaxNodeView>, src: Seq<u8>, k: int) -> Option<Seq<char>> {
    let start = d[k].bytes.0;
    let end = match field_child(d, k, "body"@) {
        Some(b) => d[b].bytes.0,
        None => d[k].bytes.1,
    };
    if start <= end <= src.len() && valid_utf8(src.subrange(start as int, end as int)) {
        let t = trim(decode_utf8(src.subrange(start as int, end as int)));
        if t.len() > 0 {
            Some(t)
        } else {
            None
        }
    } else {
        None
    }
}

/// The signature of the symbol at node `k`.
pub fn signature_text(nodes: &[SyntaxNode], parents: &Vec<Option<usize>>, source: &[u8], k: usize) -> (r: Option<String>)
    requires
        k < nodes@.len(),
        parents_wf(views(nodes@), parents@),
    ensures
        text_of(r) == signature_of(views(nodes@), source@, k as int),
{
    let start = nodes[k].bytes.0;
    let end = match field_child_of(nodes, parents, k, "body") {
        Some(b) => nodes[b].bytes.0,
        None => nodes[k].bytes.1,
    };
    if start <= end && end <= source.len() {
        match from_utf8(vstd::slice::slice_subrange(source, start, end)) {
            Ok(t) => {
                let chars = trimmed(&chars_of(t));
                if chars.len() > 0 {
                    Some(string_of(&chars))
                } else {
                    None
                }
            },
            Err(_) => None,
        }
    } else {
        None
    }
}

/// The line of a row, counted from one, at most `u32::MAX`.
pub open spec fn line_of(row: usize) -> u32 {
    if row < u32::MAX {
        (row + 1) as u32
    } else {
        u32::MAX
    }
}

/// The line of a row.
pub fn line_number(row: usize) -> (l: u32)
    ensures
        l == line_of(row),
{
    if row < u32::MAX as usize {
        (row + 1) as u32
    } else {
        u32::MAX
    }
}

// ---------------------------------------------------------------------------
// Symbols
// ---------------------------------------------------------------------------
/// Whether some ancestor of node `k` is an `impl` or a trait.
pub open spec fn under_impl_or_trait(d: Seq<SyntaxNodeView>, k: int) -> bool
    decreases k,
{
    if k <= 0 || k >= d.len() {
        false
    } else {
        match parent_of(d, k) {
            Some(p) => {
                proof {
                    lemma_parent_before(d, k);
                }
                d[p].kind == "impl_item"@ || d[p].kind == "trait_item"@ || under_impl_or_trait(d, p)
            },
            None => false,
        }
    }
}

/// Whether some ancestor of node `k` is an `impl` or a trait.
pub fn within_impl_or_trait(nodes: &[SyntaxNode], parents: &Vec<Option<usize>>, k: usize) -> (r: bool)
    requires
        k < nodes@.len(),
        parents_wf(views(nodes@), parents@),
    ensures
        r == under_impl_or_trait(views(nodes@), k as int),
{
    let ghost d = views(nodes@);
    let mut current: usize = k;
    loop
        invariant
            d == views(nodes@),
            parents_wf(d, parents@),
            current < nodes@.len(),
            under_impl_or_trait(d, k as int) == under_impl_or_trait(d, current as int),
        decreases current,
    {
        proof {
            lemma_parent_before(d, current as int);
        }
        match parents[current] {
            Some(p) => {
                assert(d[p as int].kind == nodes@[p as int].kind@);
                if text_is(nodes[p].kind, "impl_item") || text_is(nodes[p].kind, "trait_item") {
                    return true;
                }
                current = p;
            },
            None => {
                return false;
            },
        }
    }
}

/// The kind of symbol that node `k` declares, if any.
pub open spec fn symbol_kind(d: Seq<SyntaxNodeView>, k: int) -> Option<NodeKind> {
    let kind = d[k].kind;
    if kind == "function_item"@ {
        Some(
            if under_impl_or_trait(d, k) {
                NodeKind::Method
            } else {
                NodeKind::Function
            },
        )
    } else if kind == "function_signature_item"@ {
        Some(NodeKind::Method)
    } else if kind == "struct_item"@ || kind == "enum_item"@ || kind == "union_item"@ || kind == "type_item"@ {
        Some(NodeKind::Type)
    } else if kind == "trait_item"@ {
        Some(NodeKind::Trait)
    } else if kind == "mod_item"@ {
        Some(NodeKind::Module)
    } else {
        None
    }
}

/// The kind of symbol that node `k` declares.
pub fn symbol_kind_of(nodes: &[SyntaxNode], parents: &Vec<Option<usize>>, k: usize) -> (r: Option<NodeKind>)
    requires
        k < nodes@.len(),
        parents_wf(views(nodes@), parents@),
    ensures
        r == symbol_kind(views(nodes@), k as int),
{
    let kind = nodes[k].kind;
    assert(views(nodes@)[k as int].kind == kind@);
    if text_is(kind, "function_item") {
        Some(
            if within_impl_or_trait(nodes, parents, k) {
                NodeKind::Method
            } else {
                NodeKind::Function
            },
        )
    } else if text_is(kind, "function_signature_item") {
        Some(NodeKind::Method)
    } else if text_is(kind, "struct_item") || text_is(kind, "enum_item") || text_is(kind, "union_item") || text_is(
        kind,
        "type_item",
    ) {
        Some(NodeKind::Type)
    } else if text_is(kind, "trait_item") {
        Some(NodeKind::Trait)
    } else if text_is(kind, "mod_item") {
        Some(NodeKind::Module)
    } else {
        None
    }
}

/// The field that names a scope of the given kind: modules, traits and
/// functions by their name, `impl` blocks by their type.
pub open spec fn scope_field(kind: Seq<char>) -> Option<Seq<char>> {
    if kind == "mod_item"@ || kind == "trait_item"@ || kind == "function_item"@ {
        Some("name"@)
    } else if kind == "impl_item"@ {
        Some("type"@)
    } else {
        None
    }
}

/// The name that the scope at node `p` gives what it holds, if any.
pub open spec fn scope_part(d: Seq<SyntaxNodeView>, src: Seq<u8>, p: int) -> Seq<Seq<char>> {
    match scope_field(d[p].kind) {
        Some(f) => match field_text(d, src, p, f) {
            Some(t) => seq![t],
            None => Seq::empty(),
        },
        None => Seq::empty(),
    }
}

/// The names of the scopes around node `k`, outermost first.
pub open spec fn scope_parts(d: Seq<SyntaxNodeView>, src: Seq<u8>, k: int) -> Seq<Seq<char>>
    decreases k,
{
    if k <= 0 || k >= d.len() {
        Seq::empty()
    } else {
        match parent_of(d, k) {
            Some(p) => {
                proof {
                    lemma_parent_before(d, k);
                }
                scope_parts(d, src, p) + scope_part(d, src, p)
            },
            None => Seq::empty(),
        }
    }
}

/// The names of the scopes around node `k`, outermost first.
pub fn scope_names(nodes: &[SyntaxNode], parents: &Vec<Option<usize>>, source: &[u8], k: usize) -> (r: Vec<String>)
    requires
        k < nodes@.len(),
        parents_wf(views(nodes@), parents@),
    ensures
        texts(r@) == scope_parts(views(nodes@), source@, k as int),
    decreases k,
{
    let ghost d = views(nodes@);
    proof {
        lemma_parent_before(d, k as int);
    }
    if k == 0 {
        return Vec::new();
    }
    match parents[k] {
        Some(p) => {
            let mut names = scope_names(nodes, parents, source, p);
            let kind = nodes[p].kind;
            assert(d[p as int].kind == kind@);
            let field = if text_is(kind, "mod_item") || text_is(kind, "trait_item") || text_is(kind, "function_item") {
                Some("name")
            } else if text_is(kind, "impl_item") {
                Some("type")
            } else {
                None
            };
            assert(match field {
                Some(f) => scope_field(kind@) == Some(f@),
                None => scope_field(kind@) is None,
            });
            if let Some(f) = field {
                if let Some(t) = field_text_of(nodes, parents, source, p, f) {
                    let ghost before = names@;
                    names.push(t);
                    assert(texts(names@) =~= texts(before) + seq![t@]);
                    return names;
                }
            }
            assert(scope_part(d, source@, p as int) =~= Seq::<Seq<char>>::empty());
            assert(texts(names@) =~= texts(names@) + Seq::<Seq<char>>::empty());
            names
        },
        None => Vec::new(),
    }
}

/// Whether the walk that collects symbols reaches node `k`: the root, and
/// every named child of a reached node.
pub open spec fn visited(d: Seq<SyntaxNodeView>, k: int) -> bool
    decreases k,
{
    if k == 0 {
        true
    } else if k < 0 || k >= d.len() || !d[k].named {
        false
    } else {
        match parent_of(d, k) {
            Some(p) => {
                proof {
                    lemma_parent_before(d, k);
                }
                visited(d, p)
            },
            None => false,
        }
    }
}

/// Which nodes the walk that collects symbols reaches.
pub fn visited_nodes(nodes: &[SyntaxNode], parents: &Vec<Option<usize>>) -> (r: Vec<bool>)
    requires
        parents_wf(views(nodes@), parents@),
    ensures
        r@.len() == nodes@.len(),
        forall|k: int| 0 <= k < nodes@.len() ==> #[trigger] r@[k] == visited(views(nodes@), k),
{
    let ghost d = views(nodes@);
    let mut r: Vec<bool> = Vec::new();
    let mut k: usize = 0;
    while k < nodes.len()
        invariant
            d == views(nodes@),
            parents_wf(d, parents@),
            k <= nodes@.len(),
            r@.len() == k,
            forall|x: int| 0 <= x < k ==> #[trigger] r@[x] == visited(d, x),
        decreases nodes@.len() - k,
    {
        proof {
            lemma_parent_before(d, k as int);
        }
        assert(d[k as int].named == nodes@[k as int].named);
        let reached = if k == 0 {
            true
        } else if !nodes[k].named {
            false
        } else {
            match parents[k] {
                Some(p) => r[p],
                None => false,
            }
        };
        r.push(reached);
        k = k + 1;
    }
    r
}

/// `a + b`, or `u32::MAX` when that is larger.
pub open spec fn sat_add(a: u32, b: u32) -> u32 {
    if a + b > u32::MAX {
        u32::MAX
    } else {
        (a + b) as u32
    }
}

/// What a node adds to the complexity of the function around it: one for a
/// branch or loop, a `match` arm or a `?`, and for a binary expression whose
/// text holds `&&` or `||`.
pub open spec fn own_increment(n: SyntaxNodeView, src: Seq<u8>) -> u32 {
    let kind = n.kind;
    if kind == "if_expression"@ || kind == "while_expression"@ || kind == "for_expression"@ || kind
        == "loop_expression"@ || kind == "match_arm"@ || kind == "try_expression"@ {
        1
    } else if kind == "binary_expression"@ {
        match node_text(n, src) {
            Some(t) => if contains_seq(t, "&&"@) || contains_seq(t, "||"@) {
                1
            } else {
                0
            },
            None => 0,
        }
    } else {
        0
    }
}

/// What node `i` adds, with all its named children add.
pub open spec fn increment(d: Seq<SyntaxNodeView>, src: Seq<u8>, i: int) -> u32
    decreases d.len() - i, 1int, 0int,
{
    if i < 0 || i >= d.len() {
        0
    } else {
        increments_from(d, src, i, i + 1, own_increment(d[i], src))
    }
}

/// `acc` with what each named child of `p` at `j` or later adds, in order.
pub open spec fn increments_from(d: Seq<SyntaxNodeView>, src: Seq<u8>, p: int, j: int, acc: u32) -> u32
    decreases d.len() - p, 0int, d.len() - j,
{
    if p < 0 || j <= p || j >= d.len() {
        acc
    } else {
        let next = if parent_of(d, j) == Some(p) && d[j].named {
            sat_add(acc, increment(d, src, j))
        } else {
            acc
        };
        increments_from(d, src, p, j + 1, next)
    }
}

proof fn lemma_increments_none(d: Seq<SyntaxNodeView>, src: Seq<u8>, p: int, j: int, acc: u32)
    requires
        0 <= p < j,
        forall|x: int| j <= x < d.len() ==> parent_of(d, x) != Some(p),
    ensures
        increments_from(d, src, p, j, acc) == acc,
    decreases d.len() - j,
{
    if j < d.len() {
        lemma_increments_none(d, src, p, j + 1, acc);
    }
}

/// The cyclomatic complexity of a function: one, with what its named
/// children add; zero for any other node.
pub open spec fn complexity(d: Seq<SyntaxNodeView>, src: Seq<u8>, k: int) -> u32 {
    if d[k].kind == "function_item"@ || d[k].kind == "function_signature_item"@ {
        increments_from(d, src, k, k + 1, 1)
    } else {
        0
    }
}

/// The kinds of node that open a path of their own: branches, loops,
/// `match` arms and `?`.
pub open spec fn branching_kind(kind: Seq<char>) -> bool {
    ||| kind == "if_expression"@
    ||| kind == "while_expression"@
    ||| kind == "for_expression"@
    ||| kind == "loop_expression"@
    ||| kind == "match_arm"@
    ||| kind == "try_expression"@
}

proof fn lemma_sat_add_mono(a1: u32, a2: u32, b: u32)
    requires
        a1 <= a2,
    ensures
        sat_add(a1, b) <= sat_add(a2, b),
        a1 <= sat_add(a1, b),
        b <= sat_add(a1, b),
{
}

proof fn lemma_increments_grow(d: Seq<SyntaxNodeView>, src: Seq<u8>, p: int, j: int, a1: u32, a2: u32)
    requires
        a1 <= a2,
    ensures
        a1 <= increments_from(d, src, p, j, a1) <= increments_from(d, src, p, j, a2),
    decreases d.len() - j,
{
    if !(p < 0 || j <= p || j >= d.len()) {
        let inc = increment(d, src, j);
        if parent_of(d, j) == Some(p) && d[j].named {
            lemma_sat_add_mono(a1, a2, inc);
            lemma_increments_grow(d, src, p, j + 1, sat_add(a1, inc), sat_add(a2, inc));
        } else {
            lemma_increments_grow(d, src, p, j + 1, a1, a2);
        }
    }
}

/// A named child `c` of `p` at `j` or later adds all it adds to `acc`.
proof fn lemma_increments_child(d: Seq<SyntaxNodeView>, src: Seq<u8>, p: int, j: int, acc: u32, c: int)
    requires
        0 <= p < j <= c < d.len(),
        parent_of(d, c) == Some(p),
        d[c].named,
    ensures
        sat_add(acc, increment(d, src, c)) <= increments_from(d, src, p, j, acc),
    decreases c - j,
{
    let inc = increment(d, src, j);
    let next = if parent_of(d, j) == Some(p) && d[j].named {
        sat_add(acc, inc)
    } else {
        acc
    };
    lemma_sat_add_mono(acc, acc, inc);
    if j == c {
        lemma_increments_grow(d, src, p, j + 1, next, next);
    } else {
        lemma_increments_child(d, src, p, j + 1, next, c);
        lemma_sat_add_mono(acc, next, increment(d, src, c));
    }
}

/// Cyclomatic complexity counts each path through a function: every node of
/// a branching kind (`if`, `while`, `for`, `loop`, a `match` arm, `?`) adds
/// exactly one on its own, a binary expression one when its text holds `&&`
/// or `||`, any other node nothing, and a function with such a node among its named children has a
/// complexity of at least two.
pub proof fn law_branches_add_to_complexity(d: Seq<SyntaxNodeView>, src: Seq<u8>, k: int, c: int)
    requires
        0 <= k < c < d.len(),
        d[k].kind == "function_item"@ || d[k].kind == "function_signature_item"@,
        parent_of(d, c) == Some(k),
        d[c].named,
        branching_kind(d[c].kind),
    ensures
        own_increment(d[c], src) == 1,
        complexity(d, src, k) >= 2,
        forall|n: SyntaxNodeView| #[trigger] branching_kind(n.kind) ==> own_increment(n, src) == 1,
        forall|n: SyntaxNodeView| !branching_kind(n.kind) && n.kind != "binary_expression"@ ==> #[trigger] own_increment(n, src) == 0,
        forall|n: SyntaxNodeView| n.kind == "binary_expression"@ ==> (#[trigger] own_increment(n, src) == 1 <==> (node_text(n, src) matches Some(t)
            && (contains_seq(t, "&&"@) || contains_seq(t, "||"@)))),
{
    reveal_strlit("binary_expression");
    reveal_strlit("if_expression");
    reveal_strlit("while_expression");
    reveal_strlit("for_expression");
    reveal_strlit("loop_expression");
    reveal_strlit("match_arm");
    reveal_strlit("try_expression");
    assert(!branching_kind("binary_expression"@)) by {
        assert("binary_expression"@[0] != "if_expression"@[0]);
        assert("binary_expression"@[0] != "while_expression"@[0]);
        assert("binary_expression"@[0] != "for_expression"@[0]);
        assert("binary_expression"@[0] != "loop_expression"@[0]);
        assert("binary_expression"@[0] != "match_arm"@[0]);
        assert("binary_expression"@[0] != "try_expression"@[0]);
    }
    lemma_increments_grow(d, src, c, c + 1, own_increment(d[c], src), own_increment(d[c], src));
    assert(increment(d, src, c) >= 1);
    lemma_increments_child(d, src, k, k + 1, 1, c);
}

/// What node `n` adds on its own.
fn own_increment_of(node: &SyntaxNode, source: &[u8]) -> (r: u32)
    ensures
        r == own_increment(node@, source@),
{
    let kind = node.kind;
    if text_is(kind, "if_expression") || text_is(kind, "while_expression") || text_is(kind, "for_expression")
        || text_is(kind, "loop_expression") || text_is(kind, "match_arm") || text_is(kind, "try_expression") {
        1
    } else if text_is(kind, "binary_expression") {
        match text_of_node(node, source) {
            Some(t) => {
                let chars = chars_of(t.as_str());
                if contains_chars(&chars, &chars_of("&&")) || contains_chars(&chars, &chars_of("||")) {
                    1
                } else {
                    0
                }
            },
            None => 0,
        }
    } else {
        0
    }
}

/// What node `i` adds, with all its named children add.
fn increment_of(nodes: &[SyntaxNode], parents: &Vec<Option<usize>>, source: &[u8], i: usize) -> (r: u32)
    requires
        i < nodes@.len(),
        parents_wf(views(nodes@), parents@),
    ensures
        r == increment(views(nodes@), source@, i as int),
    decreases nodes@.len() - i, 1int,
{
    let own = own_increment_of(&nodes[i], source);
    assert(views(nodes@)[i as int] == nodes@[i as int]@);
    children_increments(nodes, parents, source, i, own)
}

/// `acc` with what each named child of `p` adds, in order.
fn children_increments(nodes: &[SyntaxNode], parents: &Vec<Option<usize>>, source: &[u8], p: usize, acc: u32) -> (r: u32)
    requires
        p < nodes@.len(),
        parents_wf(views(nodes@), parents@),
    ensures
        r == increments_from(views(nodes@), source@, p as int, p + 1, acc),
    decreases nodes@.len() - p, 0int,
{
    let ghost d = views(nodes@);
    let n = nodes.len();
    let mut value = acc;
    let mut j: usize = p + 1;
    while j < nodes.len() && nodes[j].depth > nodes[p].depth
        invariant
            d == views(nodes@),
            parents_wf(d, parents@),
            p < j <= nodes@.len(),
            increments_from(d, source@, p as int, j as int, value) == increments_from(d, source@, p as int, p + 1, acc),
        decreases nodes@.len() - j,
    {
        let is_child = match parents[j] {
            Some(q) => q == p,
            None => false,
        };
        assert(is_child == (parent_of(d, j as int) == Some(p as int)));
        assert(nodes[j as int].named == d[j as int].named);
        if is_child && nodes[j].named {
            let add = increment_of(nodes, parents, source, j);
            value = value.saturating_add(add);
        }
        j = j + 1;
    }
    proof {
        if j < nodes@.len() {
            assert(d[j as int].depth == nodes@[j as int].depth);
            lemma_no_child_from(d, p as int, j as int);
        }
        lemma_increments_none(d, source@, p as int, j as int, value);
    }
    value
}

/// The cyclomatic complexity of the function at node `k`.
pub fn complexity_of(nodes: &[SyntaxNode], parents: &Vec<Option<usize>>, source: &[u8], k: usize) -> (r: u32)
    requires
        k < nodes@.len(),
        parents_wf(views(nodes@), parents@),
    ensures
        r == complexity(views(nodes@), source@, k as int),
{
    let kind = nodes[k].kind;
    assert(views(nodes@)[k as int].kind == kind@);
    if text_is(kind, "function_item") || text_is(kind, "function_signature_item") {
        children_increments(nodes, parents, source, k, 1)
    } else {
        0
    }
}

// ---------------------------------------------------------------------------
// File history
// ---------------------------------------------------------------------------
/// The Git history of a file as the attributes of its artifact carry it;
/// the average interval between changes is kept as the bits of its double
/// value.
#[derive(Debug, Clone, PartialEq, Eq)]
pub struct ArtifactHistory {
    pub created_at: String,
    pub last_modified_at: String,
    pub total_commits: u32,
    pub contributors: u32,
    pub average_days_bits: u64,
    pub recent_commits: u32,
    pub recent_frequency: RecentFrequency,
}

pub ghost struct HistoryView {
    pub created_at: Seq<char>,
    pub last_modified_at: Seq<char>,
    pub total_commits: u32,
    pub contributors: u32,
    pub average_days_bits: u64,
    pub recent_commits: u32,
    pub recent_frequency: RecentFrequency,
}

impl View for ArtifactHistory {
    type V = HistoryView;

    open spec fn view(&self) -> HistoryView {
        HistoryView {
            created_at: self.created_at@,
            last_modified_at: self.last_modified_at@,
            total_commits: self.total_commits,
            contributors: self.contributors,
            average_days_bits: self.average_days_bits,
            recent_commits: self.recent_commits,
            recent_frequency: self.recent_frequency,
        }
    }
}

/// The sign bit of a double.
pub const SIGN_BIT: u64 = 0x8000_0000_0000_0000;

/// The bits of the double value of a number attribute (`Value::as_f64`);
/// whole numbers of magnitude `2^53` or more are not read.
pub open spec fn number_bits(v: Option<AttributeView>) -> Option<u64> {
    match v {
        Some(AttributeView::Float(b)) => Some(b),
        Some(AttributeView::Unsigned(n)) => if n < EXACT_DOUBLE_LIMIT {
            Some(exact_double(n as nat) as u64)
        } else {
            None
        },
        Some(AttributeView::Negative(i)) => if i == 0 {
            Some(0)
        } else if -(EXACT_DOUBLE_LIMIT as int) < i < 0 {
            Some((SIGN_BIT + exact_double((-i) as nat)) as u64)
        } else {
            None
        },
        _ => None,
    }
}

/// The recent frequency a text attribute names.
pub open spec fn frequency_value(v: Option<AttributeView>) -> Option<RecentFrequency> {
    match text_value(v) {
        Some(t) => if t == "low"@ {
            Some(RecentFrequency::Low)
        } else if t == "medium"@ {
            Some(RecentFrequency::Medium)
        } else if t == "high"@ {
            Some(RecentFrequency::High)
        } else {
            None
        },
        None => None,
    }
}

/// The history that attributes carry: present only when every part is.
pub open spec fn history_in(a: Attributes) -> Option<HistoryView> {
    match (
        text_value(a.get_spec("git.created_at"@)),
        text_value(a.get_spec("git.last_modified_at"@)),
        u32_value(a.get_spec("git.total_commits"@)),
        u32_value(a.get_spec("git.contributors"@)),
        number_bits(a.get_spec("git.average_days_between_changes"@)),
        u32_value(a.get_spec("git.recent_commits"@)),
        frequency_value(a.get_spec("git.recent_frequency"@)),
    ) {
        (Some(c), Some(l), Some(t), Some(n), Some(b), Some(r), Some(f)) => Some(
            HistoryView {
                created_at: c,
                last_modified_at: l,
                total_commits: t,
                contributors: n,
                average_days_bits: b,
                recent_commits: r,
                recent_frequency: f,
            },
        ),
        _ => None,
    }
}

fn text_attribute(a: &Attributes, name: &str) -> (r: Option<String>)
    requires
        a.wf(),
    ensures
        text_of(r) == text_value(a.get_spec(name@)),
{
    match a.get(name) {
        Some(AttributeValue::Text(t)) => Some(t.clone()),
        _ => None,
    }
}

fn u32_attribute(a: &Attributes, name: &str) -> (r: Option<u32>)
    requires
        a.wf(),
    ensures
        r == u32_value(a.get_spec(name@)),
{
    match a.get(name) {
        Some(AttributeValue::Unsigned(n)) => if *n <= u32::MAX as u64 {
            Some(*n as u32)
        } else {
            None
        },
        _ => None,
    }
}

fn number_attribute(a: &Attributes, name: &str) -> (r: Option<u64>)
    requires
        a.wf(),
    ensures
        r == number_bits(a.get_spec(name@)),
{
    match a.get(name) {
        Some(AttributeValue::Float(b)) => Some(*b),
        Some(AttributeValue::Unsigned(n)) => if *n < EXACT_DOUBLE_LIMIT {
            Some(count_bits(*n))
        } else {
            None
        },
        Some(AttributeValue::Negative(i)) => if *i == 0 {
            Some(0)
        } else if *i < 0 && *i > -(EXACT_DOUBLE_LIMIT as i64) {
            let magnitude = count_bits((-*i) as u64);
            Some(SIGN_BIT + magnitude)
        } else {
            None
        },
        _ => None,
    }
}

fn frequency_attribute(a: &Attributes, name: &str) -> (r: Option<RecentFrequency>)
    requires
        a.wf(),
    ensures
        r == frequency_value(a.get_spec(name@)),
{
    match a.get(name) {
        Some(AttributeValue::Text(t)) => {
            if text_is(t.as_str(), "low") {
                Some(RecentFrequency::Low)
            } else if text_is(t.as_str(), "medium") {
                Some(RecentFrequency::Medium)
            } else if text_is(t.as_str(), "high") {
                Some(RecentFrequency::High)
            } else {
                None
            }
        },
        _ => None,
    }
}

/// The Git history that the attributes of an artifact carry, if they carry
/// all of it.
pub fn history_of(a: &Attributes) -> (r: Option<ArtifactHistory>)
    requires
        a.wf(),
    ensures
        match r {
            Some(h) => history_in(*a) == Some(h@),
            None => history_in(*a) is None,
        },
{
    let created_at = text_attribute(a, "git.created_at");
    let last_modified_at = text_attribute(a, "git.last_modified_at");
    let total_commits = u32_attribute(a, "git.total_commits");
    let contributors = u32_attribute(a, "git.contributors");
    let average = number_attribute(a, "git.average_days_between_changes");
    let recent_commits = u32_attribute(a, "git.recent_commits");
    let frequency = frequency_attribute(a, "git.recent_frequency");
    match (created_at, last_modified_at, total_commits, contributors, average, recent_commits, frequency) {
        (Some(c), Some(l), Some(t), Some(n), Some(b), Some(r), Some(f)) => Some(
            ArtifactHistory {
                created_at: c,
                last_modified_at: l,
                total_commits: t,
                contributors: n,
                average_days_bits: b,
                recent_commits: r,
                recent_frequency: f,
            },
        ),
        _ => None,
    }
}

// ---------------------------------------------------------------------------
// Observations
// ---------------------------------------------------------------------------
/// `a - b`, or zero when `b` is larger.
pub open spec fn sat_sub(a: u32, b: u32) -> u32 {
    if a >= b {
        (a - b) as u32
    } else {
        0
    }
}

/// The lines a symbol spans, first and last included.
pub open spec fn lines_of_code(start: u32, end: u32) -> u32 {
    sat_add(sat_sub(end, start), 1)
}

/// The attributes of a symbol: its file, language, qualified name, first and
/// last lines and signature (null without one).
pub open spec fn symbol_attributes(
    path: Seq<char>,
    qualified: Seq<char>,
    start: u32,
    end: u32,
    signature: Option<Seq<char>>,
    history: Option<HistoryView>,
) -> Map<Seq<char>, AttributeView> {
    let base = Map::empty()
        .insert("file_path"@, AttributeView::Text(path))
        .insert("language"@, AttributeView::Text("rust"@))
        .insert("qualified_name"@, AttributeView::Text(qualified))
        .insert("line_start"@, AttributeView::Unsigned(start as u64))
        .insert("line_end"@, AttributeView::Unsigned(end as u64))
        .insert("signature"@, match signature {
            Some(t) => AttributeView::Text(t),
            None => AttributeView::Null,
        });
    match history {
        Some(h) => base
            .insert("git.created_at"@, AttributeView::Text(h.created_at))
            .insert("git.last_modified_at"@, AttributeView::Text(h.last_modified_at))
            .insert("git.recent_frequency"@, AttributeView::Text(frequency_name(h.recent_frequency))),
        None => base,
    }
}

/// The measurements a file's history adds to each of its symbols: its
/// commits, contributors, recent commits and the average days between
/// changes.
pub open spec fn history_measured(m: Seq<Measurement>, h: HistoryView) -> bool {
    &&& m.len() == 4
    &&& counted(m[0], "git.total_commits"@, h.total_commits)
    &&& counted(m[1], "git.contributors"@, h.contributors)
    &&& counted(m[2], "git.recent_commits"@, h.recent_commits)
    &&& m[3].name@ == "git.average_days_between_changes"@
    &&& m[3].value == h.average_days_bits
    &&& m[3].unit matches Some(u) && u@ == "days"@
}

/// An optional history by its view.
pub open spec fn history_view(h: Option<ArtifactHistory>) -> Option<HistoryView> {
    match h {
        Some(x) => Some(x@),
        None => None,
    }
}

/// The qualified name of the symbol `name` at node `k` of the file `path`:
/// the file's module path, the enclosing scopes and the name, joined by `::`.
pub open spec fn qualified_name_of(d: Seq<SyntaxNodeView>, src: Seq<u8>, path: Seq<char>, k: int, name: Seq<char>) -> Seq<char> {
    joined(rust_module_parts(path) + scope_parts(d, src, k) + seq![name], "::"@)
}

/// The observation of the symbol `name` declared at node `k` of the file
/// `path`, in the snapshot of `repository` at `commit`.
pub open spec fn syntax_entity(
    o: EntityObservation,
    d: Seq<SyntaxNodeView>,
    src: Seq<u8>,
    path: Seq<char>,
    history: Option<HistoryView>,
    k: int,
    name: Seq<char>,
    repository: Seq<char>,
    commit: Seq<char>,
) -> bool {
    let start = line_of(d[k].rows.0);
    let end = line_of(d[k].rows.1);
    let qualified = qualified_name_of(d, src, path, k, name);
    &&& o.wf()
    &&& o.snapshot.world@ == repository_world(repository)
    &&& o.snapshot.version@ == commit
    &&& o.entity.id@ == symbol_identity(path, name, start as nat)
    &&& o.entity.model@ == CODE_MODEL_ID@
    &&& symbol_kind(d, k) matches Some(kind) && o.entity.kind@ == node_kind_name(kind)
    &&& o.entity.label@ == qualified
    &&& o.attributes@ == symbol_attributes(path, qualified, start, end, signature_of(d, src, k), history)
    &&& o.measurements@.len() >= 3
    &&& counted(o.measurements@[0], "code.lines_of_code"@, lines_of_code(start, end))
    &&& counted(o.measurements@[1], "code.cyclomatic_complexity"@, complexity(d, src, k))
    &&& counted(o.measurements@[2], "code.parameters"@, parameter_count(d, k))
    &&& match history {
        Some(h) => history_measured(o.measurements@.skip(3), h),
        None => o.measurements@.len() == 3,
    }
    &&& forall|i: int| 0 <= i < o.measurements@.len() ==> (#[trigger] o.measurements@[i]).evidence is None
    &&& o.scores@.len() == 0
}

/// The name of the symbol that node `k` declares, when the walk reaches it,
/// it declares one and has a name.
pub open spec fn declared_name(d: Seq<SyntaxNodeView>, src: Seq<u8>, k: int) -> Option<Seq<char>> {
    if visited(d, k) && symbol_kind(d, k) is Some {
        field_text(d, src, k, "name"@)
    } else {
        None
    }
}

/// The symbols declared among the first `hi` nodes, in order, each node with
/// its name.
pub open spec fn declared_symbols(d: Seq<SyntaxNodeView>, src: Seq<u8>, hi: int) -> Seq<(int, Seq<char>)>
    decreases hi,
{
    if hi <= 0 {
        Seq::empty()
    } else {
        let earlier = declared_symbols(d, src, hi - 1);
        match declared_name(d, src, hi - 1) {
            Some(n) => earlier.push((hi - 1, n)),
            None => earlier,
        }
    }
}

/// The observations that a symbol and its containment in its file make.
pub open spec fn symbol_observed(
    o: EntityObservation,
    c: RelationObservation,
    d: Seq<SyntaxNodeView>,
    src: Seq<u8>,
    path: Seq<char>,
    history: Option<HistoryView>,
    k: int,
    name: Seq<char>,
    repository: Seq<char>,
    commit: Seq<char>,
) -> bool {
    &&& syntax_entity(o, d, src, path, history, k, name, repository, commit)
    &&& file_contains(c, path, symbol_identity(path, name, line_of(d[k].rows.0) as nat), repository, commit)
}

/// Every symbol the syntax analysis observes is contained in its file: the
/// containment relation goes from the file's entity to the symbol's entity.
pub proof fn law_symbols_are_contained_in_their_file(
    o: EntityObservation,
    c: RelationObservation,
    d: Seq<SyntaxNodeView>,
    src: Seq<u8>,
    path: Seq<char>,
    history: Option<HistoryView>,
    k: int,
    name: Seq<char>,
    repository: Seq<char>,
    commit: Seq<char>,
)
    requires
        symbol_observed(o, c, d, src, path, history, k, name, repository, commit),
    ensures
        c.relation.kind@ == "contains"@,
        c.relation.from@ == "file:"@ + path,
        c.relation.to@ == o.entity.id@,
        c.snapshot.world@ == o.snapshot.world@,
        c.snapshot.version@ == o.snapshot.version@,
{
}

/// The observations of the symbol `name` that node `k` declares.
fn symbol_observations(
    revision: &RevisionId,
    path: &str,
    history: &Option<ArtifactHistory>,
    source: &[u8],
    nodes: &[SyntaxNode],
    parents: &Vec<Option<usize>>,
    k: usize,
    kind: NodeKind,
    name: &str,
) -> (r: (EntityObservation, RelationObservation))
    requires
        k < nodes@.len(),
        parents_wf(views(nodes@), parents@),
        symbol_kind(views(nodes@), k as int) == Some(kind),
    ensures
        symbol_observed(
            r.0,
            r.1,
            views(nodes@),
            source@,
            path@,
            history_view(*history),
            k as int,
            name@,
            revision.repository@,
            revision.commit@,
        ),
{
    let ghost d = views(nodes@);
    assert(d[k as int] == nodes@[k as int]@);
    let start = line_number(nodes[k].rows.0);
    let end = line_number(nodes[k].rows.1);
    let mut parts = module_parts(path);
    let mut scopes = scope_names(nodes, parents, source, k);
    let ghost modules = parts@;
    let ghost enclosing = scopes@;
    parts.append(&mut scopes);
    let owned_name = name.to_owned();
    parts.push(owned_name);
    proof {
        assert(parts@ =~= modules + enclosing + seq![owned_name]);
        assert(parts@.map_values(|s: String| s@) =~= rust_module_parts(path@) + scope_parts(d, source@, k as int) + seq![name@]);
    }
    let qualified = join_strings(&parts, "::");
    let signature = signature_text(nodes, parents, source, k);
    let id = symbol_id(path, name, start);
    let mut entries: Vec<(String, AttributeValue)> = Vec::new();
    entries.push(("file_path".to_owned(), AttributeValue::Text(path.to_owned())));
    entries.push(("language".to_owned(), AttributeValue::Text("rust".to_owned())));
    entries.push(("qualified_name".to_owned(), AttributeValue::Text(qualified.clone())));
    entries.push(("line_start".to_owned(), AttributeValue::Unsigned(start as u64)));
    entries.push(("line_end".to_owned(), AttributeValue::Unsigned(end as u64)));
    entries.push((
        "signature".to_owned(),
        match signature {
            Some(t) => AttributeValue::Text(t),
            None => AttributeValue::Null,
        },
    ));
    let ghost base_entries = entries@;
    if let Some(h) = history {
        entries.push(("git.created_at".to_owned(), AttributeValue::Text(h.created_at.clone())));
        entries.push(("git.last_modified_at".to_owned(), AttributeValue::Text(h.last_modified_at.clone())));
        entries.push(("git.recent_frequency".to_owned(), AttributeValue::Text(h.recent_frequency.as_str().to_owned())));
    }
    proof {
        reveal_strlit("git.created_at");
        reveal_strlit("git.last_modified_at");
        reveal_strlit("git.recent_frequency");
        reveal_strlit("file_path");
        reveal_strlit("language");
        reveal_strlit("qualified_name");
        reveal_strlit("line_start");
        reveal_strlit("line_end");
        reveal_strlit("signature");
        reveal_with_fuel(seq_map, 10);
        let pairs = attribute_pairs(entries@);
        assert(pairs[0].0 == "file_path"@ && pairs[1].0 == "language"@ && pairs[2].0 == "qualified_name"@
            && pairs[3].0 == "line_start"@ && pairs[4].0 == "line_end"@ && pairs[5].0 == "signature"@);
        if history is Some {
            assert(pairs[6].0 == "git.created_at"@ && pairs[7].0 == "git.last_modified_at"@ && pairs[8].0
                == "git.recent_frequency"@);
        }
        assert("language"@[1] != "line_end"@[1]);
        assert("file_path"@[0] != "signature"@[0]);
        assert("git.last_modified_at"@[4] != "git.recent_frequency"@[4]);
        assert forall|i: int, j: int| 0 <= i < pairs.len() && 0 <= j < pairs.len() && i != j implies pairs[i].0 != pairs[j].0 by {
            if pairs[i].0 == pairs[j].0 {
                assert(pairs[i].0.len() == pairs[j].0.len());
                assert(pairs[i].0[0] == pairs[j].0[0]);
                assert(pairs[i].0[1] == pairs[j].0[1]);
                assert(pairs[i].0[4] == pairs[j].0[4]);
            }
        }
        assert(seq_map(pairs) =~= symbol_attributes(
            path@,
            qualified@,
            start,
            end,
            signature_of(d, source@, k as int),
            history_view(*history),
        ));
    }
    let mut measurements: Vec<Measurement> = Vec::new();
    measurements.push(count_measurement("code.lines_of_code", end.saturating_sub(start).saturating_add(1)));
    measurements.push(count_measurement("code.cyclomatic_complexity", complexity_of(nodes, parents, source, k)));
    measurements.push(count_measurement("code.parameters", parameters_of(nodes, parents, k)));
    let ghost code_measurements = measurements@;
    if let Some(h) = history {
        measurements.push(count_measurement("git.total_commits", h.total_commits));
        measurements.push(count_measurement("git.contributors", h.contributors));
        measurements.push(count_measurement("git.recent_commits", h.recent_commits));
        measurements.push(
            Measurement {
                name: "git.average_days_between_changes".to_owned(),
                value: h.average_days_bits,
                unit: Some("days".to_owned()),
                evidence: None,
            },
        );
        assert(measurements@.skip(3) =~= measurements@.subrange(3, 7));
    }
    let entity = EntityObservation {
        snapshot: revision.snapshot(),
        entity: Entity {
            id: EntityId::new(id.as_str()),
            model: ModelId::new(CODE_MODEL_ID),
            kind: kind.as_str().to_owned(),
            label: qualified,
        },
        attributes: Attributes { entries },
        measurements,
        scores: Vec::new(),
    };
    let relation = file_contains_symbol(revision, path, id.as_str());
    (entity, relation)
}

/// The observations that the Rust syntax tree `nodes` of the file `path`,
/// whose text is `source`, makes: each symbol that the walk from the root
/// through named children reaches, in order, and its containment in the
/// file.
pub fn syntax_observations(
    revision: &RevisionId,
    path: &str,
    history: &Option<ArtifactHistory>,
    source: &[u8],
    nodes: &[SyntaxNode],
) -> (r: (
    Vec<EntityObservation>,
    Vec<RelationObservation>,
))
    ensures
        ({
            let found = declared_symbols(views(nodes@), source@, nodes@.len() as int);
            &&& r.0@.len() == found.len()
            &&& r.1@.len() == found.len()
            &&& forall|i: int| #![trigger r.0@[i]] 0 <= i < found.len() ==> symbol_observed(
                r.0@[i],
                r.1@[i],
                views(nodes@),
                source@,
                path@,
                history_view(*history),
                found[i].0,
                found[i].1,
                revision.repository@,
                revision.commit@,
            )
        }),
{
    let ghost d = views(nodes@);
    let parents = parents_of(nodes);
    let reached = visited_nodes(nodes, &parents);
    let mut symbols: Vec<EntityObservation> = Vec::new();
    let mut relations: Vec<RelationObservation> = Vec::new();
    let mut k: usize = 0;
    while k < nodes.len()
        invariant
            d == views(nodes@),
            parents_wf(d, parents@),
            reached@.len() == nodes@.len(),
            forall|x: int| 0 <= x < nodes@.len() ==> #[trigger] reached@[x] == visited(d, x),
            k <= nodes@.len(),
            symbols@.len() == declared_symbols(d, source@, k as int).len(),
            relations@.len() == symbols@.len(),
            forall|i: int| #![trigger symbols@[i]] 0 <= i < symbols@.len() ==> symbol_observed(
                symbols@[i],
                relations@[i],
                d,
                source@,
                path@,
                history_view(*history),
                declared_symbols(d, source@, k as int)[i].0,
                declared_symbols(d, source@, k as int)[i].1,
                revision.repository@,
                revision.commit@,
            ),
        decreases nodes@.len() - k,
    {
        let ghost earlier = declared_symbols(d, source@, k as int);
        let mut found: Option<(NodeKind, String)> = None;
        if reached[k] {
            if let Some(kind) = symbol_kind_of(nodes, &parents, k) {
                if let Some(name) = field_text_of(nodes, &parents, source, k, "name") {
                    found = Some((kind, name));
                }
            }
        }
        assert(match found {
            Some((_, name)) => declared_name(d, source@, k as int) == Some(name@),
            None => declared_name(d, source@, k as int) is None,
        });
        if let Some((kind, name)) = found {
            let (entity, relation) = symbol_observations(
                revision,
                path,
                history,
                source,
                nodes,
                &parents,
                k,
                kind,
                name.as_str(),
            );
            symbols.push(entity);
            relations.push(relation);
            assert(declared_symbols(d, source@, k + 1) == earlier.push((k as int, name@)));
        } else {
            assert(declared_symbols(d, source@, k + 1) == earlier);
        }
        k = k + 1;
    }
    (symbols, relations)
}

/// The name under which the Rust syntax analyzer reports.
pub const RUST_SYNTAX_OBSERVER: &'static str = "treesitter.rust";

/// What the syntax analysis of one file has to report: that no tree came
/// back, or that the tree holds syntax errors.
pub open spec fn file_messages(parsed: Option<Seq<SyntaxNodeView>>) -> Seq<Seq<char>> {
    match parsed {
        None => seq!["Tree-sitter did not produce a syntax tree"@],
        Some(d) => if d.len() > 0 && d[0].erroneous {
            seq!["Rust source contains syntax errors; observations may be incomplete"@]
        } else {
            Seq::empty()
        },
    }
}

/// The symbols that the syntax tree of a file declares.
pub open spec fn file_symbols(c: ArtifactContent) -> Seq<(int, Seq<char>)> {
    match rust_syntax(c.bytes@) {
        Some(d) => declared_symbols(d, c.bytes@, d.len() as int),
        None => Seq::empty(),
    }
}

/// The symbols the first `n` files declare, each with its file and node.
pub open spec fn contents_symbols(cs: Seq<ArtifactContent>, n: int) -> Seq<(int, int, Seq<char>)>
    decreases n,
{
    if n <= 0 {
        Seq::empty()
    } else {
        contents_symbols(cs, n - 1) + file_symbols(cs[n - 1]).map_values(|x: (int, Seq<char>)| (n - 1, x.0, x.1))
    }
}

/// What the syntax analysis of the first `n` files has to report, each
/// message with the path of its file.
pub open spec fn contents_messages(cs: Seq<ArtifactContent>, n: int) -> Seq<(Seq<char>, Seq<char>)>
    decreases n,
{
    if n <= 0 {
        Seq::empty()
    } else {
        contents_messages(cs, n - 1) + file_messages(rust_syntax(cs[n - 1].bytes@)).map_values(
            |m: Seq<char>| (cs[n - 1].artifact.path@, m),
        )
    }
}

/// A warning of the Rust syntax analyzer about the file `path`.
pub open spec fn syntax_warning(g: AnalysisDiagnostic, path: Seq<char>, message: Seq<char>) -> bool {
    &&& g.severity == DiagnosticSeverity::Warning
    &&& g.analyzer@ == RUST_SYNTAX_OBSERVER@
    &&& g.message@ == message
    &&& g.file_path matches Some(p) && p@ == path
}

fn warning(path: &str, message: &str) -> (g: AnalysisDiagnostic)
    ensures
        syntax_warning(g, path@, message@),
{
    AnalysisDiagnostic {
        severity: DiagnosticSeverity::Warning,
        analyzer: RUST_SYNTAX_OBSERVER.to_owned(),
        message: message.to_owned(),
        file_path: Some(path.to_owned()),
    }
}

/// The batch of the Rust syntax analysis of the files `cs` at a revision.
pub open spec fn syntax_batch(b: CodeBatch, cs: Seq<ArtifactContent>, repository: Seq<char>, commit: Seq<char>) -> bool {
    let found = contents_symbols(cs, cs.len() as int);
    let messages = contents_messages(cs, cs.len() as int);
    &&& revision_view(b.revision) == (repository, commit)
    &&& b.coverage == AnalysisCoverage::Partial
    &&& b.provenance@.len() == 1
    &&& b.provenance@[0].analyzer@ == RUST_SYNTAX_OBSERVER@
    &&& b.provenance@[0].version@ == PACKAGE_VERSION@
    &&& b.provenance@[0].configuration_digest matches Some(g) && g@ == "syntax-metrics-v1"@
    &&& b.symbols@.len() == found.len()
    &&& b.dependencies@.len() == found.len()
    &&& forall|i: int| #![trigger b.symbols@[i]] 0 <= i < found.len() ==> {
        let c = cs[found[i].0];
        symbol_observed(
            b.symbols@[i],
            b.dependencies@[i],
            rust_syntax(c.bytes@).unwrap(),
            c.bytes@,
            c.artifact.path@,
            history_in(c.artifact.attributes),
            found[i].1,
            found[i].2,
            repository,
            commit,
        )
    }
    &&& b.diagnostics@.len() == messages.len()
    &&& forall|i: int| #![trigger b.diagnostics@[i]] 0 <= i < messages.len() ==> syntax_warning(
        b.diagnostics@[i],
        messages[i].0,
        messages[i].1,
    )
}

/// The Rust syntax analysis of the files `contents` at `revision`: each
/// file's symbols with their metrics and containment, and a warning for each
/// file without a tree or with syntax errors.
pub fn analyze_contents(revision: &RevisionId, contents: &Vec<ArtifactContent>) -> (r: Result<CodeBatch, AnalyzerError>)
    requires
        forall|i: int| 0 <= i < contents@.len() ==> (#[trigger] contents@[i]).artifact.attributes.wf(),
    ensures
        r matches Ok(b) && syntax_batch(b, contents@, revision.repository@, revision.commit@),
{
    let mut parser = match rust_parser() {
        Ok(p) => p,
        Err(e) => {
            let mut m = chars_of("load Rust grammar: ");
            append_chars(&mut m, &chars_of(e.as_str()));
            return Err(AnalyzerError::Failed(string_of(&m)));
        },
    };
    let mut batch: CodeBatch = ObservationBatch::empty(RevisionId::new(revision.repository.as_str(), revision.commit.as_str()));
    batch.coverage = AnalysisCoverage::Partial;
    batch.provenance.push(AnalyzerProvenance {
        analyzer: RUST_SYNTAX_OBSERVER.to_owned(),
        version: PACKAGE_VERSION.to_owned(),
        configuration_digest: Some("syntax-metrics-v1".to_owned()),
        source: None,
    });
    let ghost cs = contents@;
    let mut n: usize = 0;
    while n < contents.len()
        invariant
            cs == contents@,
            forall|i: int| 0 <= i < cs.len() ==> (#[trigger] cs[i]).artifact.attributes.wf(),
            n <= cs.len(),
            revision_view(batch.revision) == (revision.repository@, revision.commit@),
            batch.coverage == AnalysisCoverage::Partial,
            batch.provenance@.len() == 1,
            batch.provenance@[0].analyzer@ == RUST_SYNTAX_OBSERVER@,
            batch.provenance@[0].version@ == PACKAGE_VERSION@,
            batch.provenance@[0].configuration_digest matches Some(g) && g@ == "syntax-metrics-v1"@,
            batch.symbols@.len() == contents_symbols(cs, n as int).len(),
            batch.dependencies@.len() == batch.symbols@.len(),
            forall|i: int| #![trigger batch.symbols@[i]] 0 <= i < batch.symbols@.len() ==> {
                let found = contents_symbols(cs, n as int);
                let c = cs[found[i].0];
                symbol_observed(
                    batch.symbols@[i],
                    batch.dependencies@[i],
                    rust_syntax(c.bytes@).unwrap(),
                    c.bytes@,
                    c.artifact.path@,
                    history_in(c.artifact.attributes),
                    found[i].1,
                    found[i].2,
                    revision.repository@,
                    revision.commit@,
                )
            },
            batch.diagnostics@.len() == contents_messages(cs, n as int).len(),
            forall|i: int| #![trigger batch.diagnostics@[i]] 0 <= i < batch.diagnostics@.len() ==> syntax_warning(
                batch.diagnostics@[i],
                contents_messages(cs, n as int)[i].0,
                contents_messages(cs, n as int)[i].1,
            ),
        decreases cs.len() - n,
    {
        let content = &contents[n];
        let path = content.artifact.path.as_str();
        let ghost before_found = contents_symbols(cs, n as int);
        let ghost before_messages = contents_messages(cs, n as int);
        let ghost old_symbols = batch.symbols@;
        let ghost old_dependencies = batch.dependencies@;
        let ghost old_diagnostics = batch.diagnostics@;
        match parse_rust(&mut parser, content.bytes.as_slice()) {
            None => {
                batch.diagnostics.push(warning(path, "Tree-sitter did not produce a syntax tree"));
                assert(file_symbols(cs[n as int]) =~= Seq::<(int, Seq<char>)>::empty());
                assert(contents_symbols(cs, n + 1) =~= before_found);
                assert(contents_messages(cs, n + 1) =~= before_messages.push(
                    (path@, "Tree-sitter did not produce a syntax tree"@),
                ));
            },
            Some(nodes) => {
                let ghost d = views(nodes@);
                let ghost file_found = declared_symbols(d, content.bytes@, d.len() as int);
                if nodes.len() > 0 && nodes[0].erroneous {
                    assert(d[0].erroneous == nodes@[0].erroneous);
                    batch.diagnostics.push(
                        warning(path, "Rust source contains syntax errors; observations may be incomplete"),
                    );
                    assert(contents_messages(cs, n + 1) =~= before_messages.push(
                        (path@, "Rust source contains syntax errors; observations may be incomplete"@),
                    ));
                } else {
                    assert(!(d.len() > 0 && d[0].erroneous));
                    assert(contents_messages(cs, n + 1) =~= before_messages);
                }
                let history = history_of(&content.artifact.attributes);
                let (mut symbols, mut relations) = syntax_observations(
                    revision,
                    path,
                    &history,
                    content.bytes.as_slice(),
                    nodes.as_slice(),
                );
                let ghost chunk = symbols@;
                let ghost chunk_relations = relations@;
                batch.symbols.append(&mut symbols);
                batch.dependencies.append(&mut relations);
                proof {
                    let found = contents_symbols(cs, n + 1);
                    assert(file_symbols(cs[n as int]) == file_found);
                    assert(found =~= before_found + file_found.map_values(|x: (int, Seq<char>)| (n as int, x.0, x.1)));
                    assert forall|i: int| #![trigger batch.symbols@[i]] 0 <= i < batch.symbols@.len() implies {
                        let c = cs[found[i].0];
                        symbol_observed(
                            batch.symbols@[i],
                            batch.dependencies@[i],
                            rust_syntax(c.bytes@).unwrap(),
                            c.bytes@,
                            c.artifact.path@,
                            history_in(c.artifact.attributes),
                            found[i].1,
                            found[i].2,
                            revision.repository@,
                            revision.commit@,
                        )
                    } by {
                        if i < old_symbols.len() {
                            assert(batch.symbols@[i] == old_symbols[i]);
                            assert(batch.dependencies@[i] == old_dependencies[i]);
                            assert(found[i] == before_found[i]);
                        } else {
                            let j = i - old_symbols.len();
                            assert(batch.symbols@[i] == chunk[j]);
                            assert(batch.dependencies@[i] == chunk_relations[j]);
                            assert(found[i] == (n as int, file_found[j].0, file_found[j].1));
                        }
                    }
                }
            },
        }
        proof {
            let messages = contents_messages(cs, n + 1);
            assert forall|i: int| #![trigger batch.diagnostics@[i]] 0 <= i < batch.diagnostics@.len() implies syntax_warning(
                batch.diagnostics@[i],
                messages[i].0,
                messages[i].1,
            ) by {
                if i < old_diagnostics.len() {
                    assert(batch.diagnostics@[i] == old_diagnostics[i]);
                    assert(messages[i] == before_messages[i]);
                }
            }
        }
        n = n + 1;
    }
    Ok(batch)
}

} // verus!
