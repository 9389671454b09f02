//! Reading persisted snapshots: filtering entities, walking a bounded
//! neighbourhood of relations, and comparing two versions of a world.
//!
//! Each function here takes what the store returned for a snapshot and
//! computes the answer from it.
use vstd::prelude::*;

use crate::identity::{EntityId, RelationId, SnapshotId};
use crate::kernel::{
    Attributes, EntityObservation, RelationObservation, same_observation, same_relation_observation,
    same_entity_content, same_relation_content, entity_content_equal, relation_content_equal,
};
use crate::store::{RelationDirection, StoreError};
use crate::text::{chars_of, string_of, compare_chars, contains_chars, contains_seq, seq_lt, lemma_seq_lt_asymmetric, lemma_seq_lt_transitive, lemma_seq_lt_total};

verus! {

pub const QUERY_SCHEMA_VERSION: u32 = 1;

/// Why a query could not be answered.
#[derive(Debug)]
pub enum QueryError {
    Store(StoreError),
    EntityNotFound { entity: EntityId },
    DifferentWorlds,
    InvalidNodeLimit,
}

pub open spec fn query_error_message(e: QueryError) -> Seq<char> {
    match e {
        QueryError::Store(s) => crate::store::store_error_message(s),
        QueryError::EntityNotFound { entity } => "entity "@ + entity@ + " does not exist in snapshot"@,
        QueryError::DifferentWorlds => "snapshot diff requires two versions of the same world"@,
        QueryError::InvalidNodeLimit => "graph traversal max_nodes must be greater than zero"@,
    }
}

impl QueryError {
    /// The text that describes this error.
    pub fn message(&self) -> (s: String)
        ensures
            s@ == query_error_message(*self),
    {
        match self {
            QueryError::Store(e) => e.message(),
            QueryError::EntityNotFound { entity } => {
                let mut text = crate::text::chars_of("entity ");
                crate::text::append_chars(&mut text, &crate::text::chars_of(entity.as_str()));
                crate::text::append_chars(&mut text, &crate::text::chars_of(" does not exist in snapshot"));
                crate::text::string_of(&text)
            },
            QueryError::DifferentWorlds => "snapshot diff requires two versions of the same world".to_owned(),
            QueryError::InvalidNodeLimit => "graph traversal max_nodes must be greater than zero".to_owned(),
        }
    }
}

/// Which entities `find_entities` returns: every given field must match.
#[derive(Debug, Clone, PartialEq)]
pub struct EntityFilter {
    pub model: Option<String>,
    pub kind: Option<String>,
    pub label_contains: Option<String>,
    pub attributes: Attributes,
    pub limit: Option<usize>,
}

/// A bounded walk over relations from one root entity.
#[derive(Debug, Clone, PartialEq)]
pub struct GraphRequest {
    pub root: EntityId,
    pub direction: RelationDirection,
    pub max_depth: u32,
    pub max_nodes: usize,
    /// Relation kinds to follow; all kinds when empty.
    pub relation_kinds: Vec<String>,
}

/// What a walk request asks for.
pub struct RequestView {
    pub root: Seq<char>,
    pub direction: RelationDirection,
    pub max_depth: u32,
    pub max_nodes: usize,
    pub kinds: Seq<Seq<char>>,
}

impl View for GraphRequest {
    type V = RequestView;

    open spec fn view(&self) -> RequestView {
        RequestView {
            root: self.root@,
            direction: self.direction,
            max_depth: self.max_depth,
            max_nodes: self.max_nodes,
            kinds: self.relation_kinds@.map_values(|s: String| s@),
        }
    }
}

/// An entity reached by a walk, with its distance from the root.
#[derive(Debug, Clone, PartialEq)]
pub struct TraversedEntity {
    pub depth: u32,
    pub observation: EntityObservation,
}

/// The neighbourhood a walk reached.
#[derive(Debug, Clone, PartialEq)]
pub struct GraphTraversal {
    pub schema_version: u32,
    pub snapshot: SnapshotId,
    pub root: EntityId,
    pub direction: RelationDirection,
    pub nodes: Vec<TraversedEntity>,
    pub relations: Vec<RelationObservation>,
    pub truncated: bool,
}

// ---------------------------------------------------------------------------
// Finding entities
// ---------------------------------------------------------------------------
/// `c` with an ASCII capital letter made small.
pub open spec fn ascii_lower(c: char) -> char {
    if 'A' <= c && c <= 'Z' {
        ((c as u32) + 32) as char
    } else {
        c
    }
}

/// `str::eq_ignore_ascii_case`.
pub open spec fn same_ignoring_ascii_case(a: Seq<char>, b: Seq<char>) -> bool {
    a.len() == b.len() && forall|i: int| 0 <= i < a.len() ==> ascii_lower(#[trigger] a[i]) == ascii_lower(b[i])
}

/// What `str::to_lowercase` returns for a string.
pub uninterp spec fn lowercase(s: Seq<char>) -> Seq<char>;

/// `str::to_lowercase`: the string with every character replaced by its
/// Unicode lowercase mapping.
#[verifier::external_body]
fn to_lowercase(s: &str) -> (r: String)
    ensures
        r@ == lowercase(s@),
{
    s.to_lowercase()
}

pub fn ascii_lower_char(c: char) -> (r: char)
    ensures
        r == ascii_lower(c),
{
    if 'A' <= c && c <= 'Z' {
        let n: u32 = (c as u32) + 32;
        assert(n <= 0x7f);
        char_from_ascii(n)
    } else {
        c
    }
}

fn char_from_ascii(n: u32) -> (c: char)
    requires
        n <= 0x7f,
    ensures
        c == n as char,
{
    assert((n as u8) as char == n as char);
    (n as u8) as char
}

/// `str::eq_ignore_ascii_case`.
pub fn eq_ignore_ascii_case(a: &str, b: &str) -> (r: bool)
    ensures
        r == same_ignoring_ascii_case(a@, b@),
{
    let x = chars_of(a);
    let y = chars_of(b);
    if x.len() != y.len() {
        return false;
    }
    let mut i: usize = 0;
    while i < x.len()
        invariant
            i <= x@.len(),
            x@ == a@,
            y@ == b@,
            x@.len() == y@.len(),
            forall|k: int| 0 <= k < i ==> ascii_lower(#[trigger] x@[k]) == ascii_lower(y@[k]),
        decreases x@.len() - i,
    {
        if ascii_lower_char(x[i]) != ascii_lower_char(y[i]) {
            assert(ascii_lower(a@[i as int]) != ascii_lower(b@[i as int]));
            return false;
        }
        i = i + 1;
    }
    true
}

/// Whether an entity satisfies every part of a filter.
pub open spec fn entity_matches(o: EntityObservation, f: EntityFilter) -> bool {
    &&& (f.model matches Some(m) ==> same_ignoring_ascii_case(o.entity.model@, m@))
    &&& (f.kind matches Some(k) ==> same_ignoring_ascii_case(o.entity.kind@, k@))
    &&& (f.label_contains matches Some(l) ==> contains_seq(lowercase(o.entity.label@), lowercase(l@)))
    &&& forall|name: Seq<char>| #[trigger] f.attributes@.contains_key(name) ==> o.attributes.get_spec(name) == Some(f.attributes@[name])
}

/// The entities of `s` that satisfy `f`, in order.
pub open spec fn matching(s: Seq<EntityObservation>, f: EntityFilter) -> Seq<EntityObservation>
    decreases s.len(),
{
    if s.len() == 0 {
        s
    } else if entity_matches(s.last(), f) {
        matching(s.drop_last(), f).push(s.last())
    } else {
        matching(s.drop_last(), f)
    }
}

/// `s`, cut to at most `limit` entries when there is a limit.
pub open spec fn limited<T>(s: Seq<T>, limit: Option<usize>) -> Seq<T> {
    match limit {
        Some(n) => if n < s.len() {
            s.take(n as int)
        } else {
            s
        },
        None => s,
    }
}

pub open spec fn same_observations(a: Seq<EntityObservation>, b: Seq<EntityObservation>) -> bool {
    a.len() == b.len() && forall|i: int| 0 <= i < a.len() ==> same_observation(#[trigger] a[i], b[i])
}

/// The entities of a snapshot that match every supplied filter, in the order
/// the store listed them, at most `filter.limit` of them.
pub fn find_entities(entities: &[EntityObservation], filter: &EntityFilter) -> (r: Vec<EntityObservation>)
    requires
        filter.attributes.wf(),
        forall|i: int| 0 <= i < entities@.len() ==> (#[trigger] entities@[i]).wf(),
    ensures
        same_observations(r@, limited(matching(entities@, *filter), filter.limit)),
        forall|i: int| 0 <= i < r@.len() ==> (#[trigger] r@[i]).wf(),
{
    let label = match &filter.label_contains {
        Some(l) => Some(chars_of(to_lowercase(l.as_str()).as_str())),
        None => None,
    };
    let mut out: Vec<EntityObservation> = Vec::new();
    let mut i: usize = 0;
    while i < entities.len()
        invariant
            i <= entities@.len(),
            filter.attributes.wf(),
            forall|k: int| 0 <= k < entities@.len() ==> (#[trigger] entities@[k]).wf(),
            match filter.label_contains {
                Some(l) => label matches Some(v) && v@ == lowercase(l@),
                None => label is None,
            },
            same_observations(out@, matching(entities@.take(i as int), *filter)),
            forall|k: int| 0 <= k < out@.len() ==> (#[trigger] out@[k]).wf(),
        decreases entities@.len() - i,
    {
        let o = &entities[i];
        let model_ok = match &filter.model {
            Some(m) => eq_ignore_ascii_case(o.entity.model.as_str(), m.as_str()),
            None => true,
        };
        let kind_ok = match &filter.kind {
            Some(k) => eq_ignore_ascii_case(o.entity.kind.as_str(), k.as_str()),
            None => true,
        };
        let label_ok = match &label {
            Some(l) => contains_chars(&chars_of(to_lowercase(o.entity.label.as_str()).as_str()), l),
            None => true,
        };
        let attributes_ok = filter.attributes.included_in(&o.attributes);
        proof {
            assert(entities@.take(i + 1).drop_last() =~= entities@.take(i as int));
            assert(entities@.take(i + 1).last() == entities@[i as int]);
        }
        if model_ok && kind_ok && label_ok && attributes_ok {
            out.push(o.copy());
        }
        i = i + 1;
    }
    assert(entities@.take(i as int) =~= entities@);
    if let Some(n) = filter.limit {
        if n < out.len() {
            out.truncate(n);
        }
    }
    out
}

// ---------------------------------------------------------------------------
// Walking relations
// ---------------------------------------------------------------------------
/// The relations that touch `entity` on the side `direction` follows, in order.
pub open spec fn touching(rels: Seq<RelationObservation>, entity: Seq<char>, direction: RelationDirection) -> Seq<RelationObservation>
    decreases rels.len(),
{
    if rels.len() == 0 {
        Seq::empty()
    } else if connected(rels.last(), entity, direction) is Some {
        touching(rels.drop_last(), entity, direction).push(rels.last())
    } else {
        touching(rels.drop_last(), entity, direction)
    }
}

/// The relations of a snapshot that touch an entity in a direction.
pub fn relations_of(relations: &[RelationObservation], entity: &EntityId, direction: RelationDirection) -> (r: Vec<RelationObservation>)
    requires
        forall|i: int| 0 <= i < relations@.len() ==> (#[trigger] relations@[i]).wf(),
    ensures
        r@.len() == touching(relations@, entity@, direction).len(),
        forall|i: int| 0 <= i < r@.len() ==> same_relation_observation(touching(relations@, entity@, direction)[i], #[trigger] r@[i]),
        forall|i: int| 0 <= i < r@.len() ==> (#[trigger] r@[i]).wf(),
{
    let mut r: Vec<RelationObservation> = Vec::new();
    let mut i: usize = 0;
    while i < relations.len()
        invariant
            i <= relations@.len(),
            forall|k: int| 0 <= k < relations@.len() ==> (#[trigger] relations@[k]).wf(),
            r@.len() == touching(relations@.take(i as int), entity@, direction).len(),
            forall|k: int| 0 <= k < r@.len() ==> same_relation_observation(touching(relations@.take(i as int), entity@, direction)[k], #[trigger] r@[k]),
            forall|k: int| 0 <= k < r@.len() ==> (#[trigger] r@[k]).wf(),
        decreases relations@.len() - i,
    {
        assert(relations@.take(i + 1).drop_last() =~= relations@.take(i as int));
        assert(relations@.take(i + 1).last() == relations@[i as int]);
        let node = entity.0.clone();
        if connected_exec(&relations[i], &node, direction).is_some() {
            r.push(relations[i].copy());
        }
        i = i + 1;
    }
    assert(relations@.take(i as int) =~= relations@);
    r
}

/// The entity at the other end of a relation, when it touches `node` on the
/// side that `direction` follows.
pub open spec fn connected(r: RelationObservation, node: Seq<char>, direction: RelationDirection) -> Option<Seq<char>> {
    let from = r.relation.from@;
    let to = r.relation.to@;
    match direction {
        RelationDirection::Incoming => if to == node {
            Some(from)
        } else {
            None
        },
        RelationDirection::Outgoing => if from == node {
            Some(to)
        } else {
            None
        },
        RelationDirection::Both => if to == node {
            Some(from)
        } else if from == node {
            Some(to)
        } else {
            None
        },
    }
}

pub open spec fn present(ents: Seq<EntityObservation>, id: Seq<char>) -> bool {
    exists|i: int| 0 <= i < ents.len() && (#[trigger] ents[i]).entity.id@ == id
}

pub open spec fn kind_followed(kinds: Seq<Seq<char>>, kind: Seq<char>) -> bool {
    kinds.len() == 0 || exists|i: int| 0 <= i < kinds.len() && #[trigger] kinds[i] == kind
}

pub open spec fn known(found: Seq<(Seq<char>, u32)>, id: Seq<char>) -> bool {
    exists|i: int| 0 <= i < found.len() && (#[trigger] found[i]).0 == id
}

pub open spec fn next_depth(d: u32) -> u32 {
    if d == u32::MAX {
        d
    } else {
        (d + 1) as u32
    }
}

/// The state of a walk: the entities reached, in the order they were reached,
/// with their depths; the relations followed; whether the node limit cut
/// the walk short.
pub struct Walk {
    pub found: Seq<(Seq<char>, u32)>,
    pub traversed: Set<Seq<char>>,
    pub truncated: bool,
}

/// Following the relations `rels[j..]` from `node`, reached at `depth`.
pub open spec fn visit(
    w: Walk,
    rels: Seq<RelationObservation>,
    ents: Seq<EntityObservation>,
    req: RequestView,
    node: Seq<char>,
    depth: u32,
    j: int,
) -> Walk
    decreases rels.len() - j,
{
    if j < 0 || j >= rels.len() {
        w
    } else {
        let r = rels[j];
        let w2 = if !kind_followed(req.kinds, r.relation.kind@) {
            w
        } else {
            match connected(r, node, req.direction) {
                None => w,
                Some(next) => if !present(ents, next) {
                    w
                } else if w.found.len() >= req.max_nodes && !known(w.found, next) {
                    Walk { truncated: true, ..w }
                } else {
                    let w1 = Walk { traversed: w.traversed.insert(r.relation.id@), ..w };
                    if known(w1.found, next) {
                        w1
                    } else {
                        Walk { found: w1.found.push((next, next_depth(depth))), ..w1 }
                    }
                },
            }
        };
        visit(w2, rels, ents, req, node, depth, j + 1)
    }
}

/// Continuing a breadth-first walk from the `head`-th entity reached.
pub open spec fn walk(
    w: Walk,
    head: int,
    rels: Seq<RelationObservation>,
    ents: Seq<EntityObservation>,
    req: RequestView,
) -> Walk
    decreases req.max_nodes - head,
{
    if head < 0 || head >= w.found.len() || head >= req.max_nodes {
        w
    } else {
        let (node, depth) = w.found[head];
        let w2 = if depth >= req.max_depth {
            w
        } else {
            visit(w, rels, ents, req, node, depth, 0)
        };
        walk(w2, head + 1, rels, ents, req)
    }
}

/// The whole walk of a request, from its root at depth zero.
pub open spec fn full_walk(
    rels: Seq<RelationObservation>,
    ents: Seq<EntityObservation>,
    req: RequestView,
) -> Walk {
    walk(
        Walk { found: seq![(req.root, 0u32)], traversed: Set::empty(), truncated: false },
        0,
        rels,
        ents,
        req,
    )
}

/// The position of the last observation of entity `id` (the one a lookup by
/// id keeps), or -1.
pub open spec fn last_index(ents: Seq<EntityObservation>, id: Seq<char>) -> int
    decreases ents.len(),
{
    if ents.len() == 0 {
        -1
    } else if ents.last().entity.id@ == id {
        ents.len() - 1
    } else {
        last_index(ents.drop_last(), id)
    }
}

/// The relations of `rels` whose identifier is in `ids`, in order.
pub open spec fn kept_relations(rels: Seq<RelationObservation>, ids: Set<Seq<char>>) -> Seq<RelationObservation>
    decreases rels.len(),
{
    if rels.len() == 0 {
        rels
    } else if ids.contains(rels.last().relation.id@) {
        kept_relations(rels.drop_last(), ids).push(rels.last())
    } else {
        kept_relations(rels.drop_last(), ids)
    }
}

/// Order of reached entities: by depth, then by identifier.
pub open spec fn key_lt(a: (Seq<char>, u32), b: (Seq<char>, u32)) -> bool {
    a.1 < b.1 || (a.1 == b.1 && seq_lt(a.0, b.0))
}

pub open spec fn node_key(n: TraversedEntity) -> (Seq<char>, u32) {
    (n.observation.entity.id@, n.depth)
}

/// `n` is the reached entity `f`, with the observation a lookup of its id keeps.
pub open spec fn node_for(n: TraversedEntity, f: (Seq<char>, u32), ents: Seq<EntityObservation>) -> bool {
    &&& node_key(n) == f
    &&& same_observation(n.observation, ents[last_index(ents, f.0)])
}

/// Position `m` occurs in `order`.
pub open spec fn listed(order: Seq<usize>, m: int) -> bool {
    exists|p: int| 0 <= p < order.len() && order[p] == m
}

/// `n` is one of the entities reached.
pub open spec fn from_found(n: TraversedEntity, found: Seq<(Seq<char>, u32)>, ents: Seq<EntityObservation>) -> bool {
    exists|k: int| 0 <= k < found.len() && node_for(n, #[trigger] found[k], ents)
}

/// The reached entity `f` is one of `nodes`.
pub open spec fn in_nodes(nodes: Seq<TraversedEntity>, f: (Seq<char>, u32), ents: Seq<EntityObservation>) -> bool {
    exists|i: int| 0 <= i < nodes.len() && node_for(#[trigger] nodes[i], f, ents)
}

pub open spec fn same_relations(a: Seq<RelationObservation>, b: Seq<RelationObservation>) -> bool {
    a.len() == b.len() && forall|i: int| 0 <= i < a.len() ==> same_relation_observation(#[trigger] a[i], b[i])
}

proof fn lemma_key_lt_transitive(a: (Seq<char>, u32), b: (Seq<char>, u32), c: (Seq<char>, u32))
    requires
        key_lt(a, b),
        key_lt(b, c),
    ensures
        key_lt(a, c),
{
    if a.1 == b.1 && b.1 == c.1 {
        lemma_seq_lt_transitive(a.0, b.0, c.0);
    }
}

proof fn lemma_key_lt_asymmetric(a: (Seq<char>, u32), b: (Seq<char>, u32))
    requires
        key_lt(a, b),
    ensures
        !key_lt(b, a),
{
    if a.1 == b.1 {
        lemma_seq_lt_asymmetric(a.0, b.0);
    }
}

pub open spec fn found_view(v: Seq<(String, u32)>) -> Seq<(Seq<char>, u32)> {
    v.map_values(|p: (String, u32)| (p.0@, p.1))
}

pub open spec fn id_set(v: Seq<String>) -> Set<Seq<char>> {
    Set::new(|x: Seq<char>| exists|i: int| 0 <= i < v.len() && (#[trigger] v[i])@ == x)
}

pub open spec fn walk_of(found: Seq<(String, u32)>, traversed: Seq<String>, truncated: bool) -> Walk {
    Walk { found: found_view(found), traversed: id_set(traversed), truncated }
}

fn present_exec(entities: &[EntityObservation], id: &EntityId) -> (r: bool)
    ensures
        r == present(entities@, id@),
{
    let mut i: usize = 0;
    while i < entities.len()
        invariant
            i <= entities@.len(),
            forall|k: int| 0 <= k < i ==> (#[trigger] entities@[k]).entity.id@ != id@,
        decreases entities@.len() - i,
    {
        if entities[i].entity.id.0 == id.0 {
            return true;
        }
        i = i + 1;
    }
    false
}

fn last_index_exec(entities: &[EntityObservation], id: &String) -> (r: Option<usize>)
    ensures
        match r {
            Some(i) => i == last_index(entities@, id@) && i < entities@.len(),
            None => last_index(entities@, id@) == -1,
        },
        last_index(entities@, id@) < entities@.len(),
        present(entities@, id@) ==> r is Some,
{
    let mut i: usize = entities.len();
    proof {
        assert(entities@.take(i as int) =~= entities@);
    }
    while i > 0
        invariant
            i <= entities@.len(),
            last_index(entities@, id@) == last_index(entities@.take(i as int), id@),
            forall|k: int| i <= k < entities@.len() ==> (#[trigger] entities@[k]).entity.id@ != id@,
        decreases i,
    {
        let ghost t = entities@.take(i as int);
        assert(t.drop_last() =~= entities@.take(i - 1));
        if entities[i - 1].entity.id.0 == *id {
            proof {
                lemma_last_index_bounds(entities@.take(i - 1), id@);
            }
            return Some(i - 1);
        }
        i = i - 1;
    }
    assert(entities@.take(0) =~= Seq::<EntityObservation>::empty());
    None
}

proof fn lemma_last_index_bounds(ents: Seq<EntityObservation>, id: Seq<char>)
    ensures
        -1 <= last_index(ents, id) < ents.len(),
        last_index(ents, id) >= 0 ==> ents[last_index(ents, id)].entity.id@ == id,
    decreases ents.len(),
{
    if ents.len() > 0 {
        lemma_last_index_bounds(ents.drop_last(), id);
    }
}

fn kind_followed_exec(kinds: &Vec<String>, kind: &String) -> (r: bool)
    ensures
        r == kind_followed(kinds@.map_values(|s: String| s@), kind@),
{
    if kinds.len() == 0 {
        return true;
    }
    let mut i: usize = 0;
    while i < kinds.len()
        invariant
            i <= kinds@.len(),
            kinds@.len() > 0,
            forall|k: int| 0 <= k < i ==> (#[trigger] kinds@[k])@ != kind@,
        decreases kinds@.len() - i,
    {
        if kinds[i] == *kind {
            assert(kinds@.map_values(|s: String| s@)[i as int] == kind@);
            return true;
        }
        i = i + 1;
    }
    false
}

fn known_exec(found: &Vec<(String, u32)>, id: &String) -> (r: bool)
    ensures
        r == known(found_view(found@), id@),
{
    let mut i: usize = 0;
    while i < found.len()
        invariant
            i <= found@.len(),
            forall|k: int| 0 <= k < i ==> (#[trigger] found@[k]).0@ != id@,
        decreases found@.len() - i,
    {
        if found[i].0 == *id {
            assert(found_view(found@)[i as int].0 == id@);
            return true;
        }
        i = i + 1;
    }
    proof {
        if known(found_view(found@), id@) {
            let k = choose|k: int| 0 <= k < found_view(found@).len() && (#[trigger] found_view(found@)[k]).0 == id@;
            assert(found@[k].0@ == id@);
        }
    }
    false
}

fn connected_exec<'a>(r: &'a RelationObservation, node: &String, direction: RelationDirection) -> (o: Option<&'a EntityId>)
    ensures
        match connected(*r, node@, direction) {
            Some(x) => o matches Some(e) && e@ == x,
            None => o is None,
        },
{
    let from = &r.relation.from;
    let to = &r.relation.to;
    match direction {
        RelationDirection::Incoming => if to.0 == *node {
            Some(from)
        } else {
            None
        },
        RelationDirection::Outgoing => if from.0 == *node {
            Some(to)
        } else {
            None
        },
        RelationDirection::Both => if to.0 == *node {
            Some(from)
        } else if from.0 == *node {
            Some(to)
        } else {
            None
        },
    }
}

/// Following every relation from one reached entity.
fn visit_exec(
    found: &mut Vec<(String, u32)>,
    traversed: &mut Vec<String>,
    truncated: &mut bool,
    entities: &[EntityObservation],
    relations: &[RelationObservation],
    request: &GraphRequest,
    node: &String,
    depth: u32,
)
    requires
        forall|k: int| 0 <= k < old(found)@.len() ==> present(entities@, (#[trigger] old(found)@[k]).0@),
    ensures
        walk_of(final(found)@, final(traversed)@, *final(truncated)) == visit(
            walk_of(old(found)@, old(traversed)@, *old(truncated)),
            relations@,
            entities@,
            request@,
            node@,
            depth,
            0,
        ),
        forall|k: int| 0 <= k < final(found)@.len() ==> present(entities@, (#[trigger] final(found)@[k]).0@),
{
    let ghost start = walk_of(found@, traversed@, *truncated);
    let mut j: usize = 0;
    while j < relations.len()
        invariant
            j <= relations@.len(),
            forall|k: int| 0 <= k < found@.len() ==> present(entities@, (#[trigger] found@[k]).0@),
            visit(walk_of(found@, traversed@, *truncated), relations@, entities@, request@, node@, depth, j as int)
                == visit(start, relations@, entities@, request@, node@, depth, 0),
        decreases relations@.len() - j,
    {
        let r = &relations[j];
        let ghost w = walk_of(found@, traversed@, *truncated);
        if kind_followed_exec(&request.relation_kinds, &r.relation.kind) {
            match connected_exec(r, node, request.direction) {
                None => {},
                Some(next) => {
                    if present_exec(entities, next) {
                        let is_known = known_exec(found, &next.0);
                        if found.len() >= request.max_nodes && !is_known {
                            *truncated = true;
                        } else {
                            let ghost t0 = traversed@;
                            traversed.push(r.relation.id.0.clone());
                            assert(id_set(traversed@) =~= id_set(t0).insert(r.relation.id@)) by {
                                assert forall|x: Seq<char>| id_set(t0).insert(r.relation.id@).contains(x) implies #[trigger] id_set(traversed@).contains(x) by {
                                    if x == r.relation.id@ {
                                        assert(traversed@[t0.len() as int]@ == x);
                                    } else {
                                        let i = choose|i: int| 0 <= i < t0.len() && (#[trigger] t0[i])@ == x;
                                        assert(traversed@[i] == t0[i]);
                                    }
                                }
                                assert forall|x: Seq<char>| #[trigger] id_set(traversed@).contains(x) implies id_set(t0).insert(r.relation.id@).contains(x) by {
                                    let i = choose|i: int| 0 <= i < traversed@.len() && (#[trigger] traversed@[i])@ == x;
                                    if i < t0.len() {
                                        assert(t0[i] == traversed@[i]);
                                    }
                                }
                            }
                            if !is_known {
                                let ghost f0 = found@;
                                found.push((next.0.clone(), depth.saturating_add(1)));
                                assert(found_view(found@) =~= found_view(f0).push((next@, next_depth(depth))));
                            }
                        }
                    }
                },
            }
        }
        j = j + 1;
    }
}

/// Sorts the reached entities by depth, then identifier: the positions of
/// `found`, in that order.
fn sorted_positions(found: &Vec<(String, u32)>) -> (order: Vec<usize>)
    ensures
        order@.len() == found@.len(),
        forall|p: int| 0 <= p < order@.len() ==> (#[trigger] order@[p]) < found@.len(),
        forall|m: int| 0 <= m < found@.len() ==> #[trigger] listed(order@, m),
        forall|p: int, q: int|
            0 <= p < q < order@.len() ==> !key_lt(
                #[trigger] found_view(found@)[order@[q] as int],
                #[trigger] found_view(found@)[order@[p] as int],
            ),
{
    let ghost fv = found_view(found@);
    let mut order: Vec<usize> = Vec::new();
    let mut k: usize = 0;
    while k < found.len()
        invariant
            k <= found@.len(),
            fv == found_view(found@),
            order@.len() == k,
            forall|p: int| 0 <= p < order@.len() ==> (#[trigger] order@[p]) < k,
            forall|m: int| 0 <= m < k ==> #[trigger] listed(order@, m),
            forall|p: int, q: int|
                0 <= p < q < order@.len() ==> !key_lt(#[trigger] fv[order@[q] as int], #[trigger] fv[order@[p] as int]),
        decreases found@.len() - k,
    {
        let key = chars_of(found[k].0.as_str());
        let d = found[k].1;
        assert(fv[k as int] == (key@, d));
        let mut p: usize = 0;
        let mut stop = false;
        while p < order.len() && !stop
            invariant
                p <= order@.len(),
                k < found@.len(),
                fv == found_view(found@),
                fv[k as int] == (key@, d),
                forall|x: int| 0 <= x < order@.len() ==> (#[trigger] order@[x]) < k,
                forall|q: int| 0 <= q < p ==> !key_lt(fv[k as int], #[trigger] fv[order@[q] as int]),
                stop ==> p < order@.len() && key_lt(fv[k as int], fv[order@[p as int] as int]),
            decreases 2 * (order@.len() - p) + if stop {
                0int
            } else {
                1int
            },
        {
            let o = order[p];
            let od = found[o].1;
            assert(fv[o as int] == (found@[o as int].0@, od));
            let before = d < od || (d == od && compare_chars(&key, &chars_of(found[o].0.as_str())) < 0);
            if before {
                stop = true;
            } else {
                p = p + 1;
            }
        }
        let ghost old_order = order@;
        order.insert(p, k);
        proof {
            assert forall|m: int| 0 <= m < k + 1 implies #[trigger] listed(order@, m) by {
                if m == k {
                    assert(order@[p as int] == m);
                } else {
                    assert(listed(old_order, m));
                    let x = choose|x: int| 0 <= x < old_order.len() && old_order[x] == m;
                    if x < p {
                        assert(order@[x] == m);
                    } else {
                        assert(order@[x + 1] == m);
                    }
                }
            }
            assert forall|a: int, b: int| 0 <= a < b < order@.len() implies !key_lt(#[trigger] fv[order@[b] as int], #[trigger] fv[order@[a] as int]) by {
                if a < p && b < p {
                    assert(order@[a] == old_order[a] && order@[b] == old_order[b]);
                } else if a < p && b == p {
                    assert(order@[a] == old_order[a]);
                } else if a < p {
                    assert(order@[a] == old_order[a] && order@[b] == old_order[b - 1]);
                } else if a == p {
                    assert(order@[b] == old_order[b - 1]);
                    let first = old_order[p as int];
                    if b - 1 > p {
                        assert(!key_lt(fv[old_order[b - 1] as int], fv[first as int]));
                    }
                    if key_lt(fv[order@[b] as int], fv[k as int]) {
                        if b - 1 > p {
                            lemma_key_lt_transitive(fv[order@[b] as int], fv[k as int], fv[first as int]);
                        } else {
                            lemma_key_lt_asymmetric(fv[k as int], fv[first as int]);
                        }
                    }
                } else {
                    assert(order@[a] == old_order[a - 1] && order@[b] == old_order[b - 1]);
                }
            }
        }
        k = k + 1;
    }
    order
}

/// What a walk answers for a request over the entities and relations of a
/// snapshot.
pub open spec fn traversal_answer(
    snapshot: SnapshotId,
    entities: Seq<EntityObservation>,
    relations: Seq<RelationObservation>,
    request: RequestView,
    r: Result<GraphTraversal, QueryError>,
) -> bool {
    if request.max_nodes == 0 {
        r matches Err(QueryError::InvalidNodeLimit)
    } else if !present(entities, request.root) {
        r matches Err(QueryError::EntityNotFound { entity }) && entity@ == request.root
    } else {
        r matches Ok(g) && {
        let w = full_walk(relations, entities, request);
        &&& g.schema_version == QUERY_SCHEMA_VERSION
        &&& g.snapshot.world@ == snapshot.world@ && g.snapshot.version@ == snapshot.version@
        &&& g.root@ == request.root
        &&& g.direction == request.direction
        &&& g.truncated == w.truncated
        &&& g.nodes@.len() == w.found.len()
        &&& (forall|i: int| 0 <= i < g.nodes@.len() ==> from_found(#[trigger] g.nodes@[i], w.found, entities))
        &&& (forall|k: int| 0 <= k < w.found.len() ==> in_nodes(g.nodes@, #[trigger] w.found[k], entities))
        &&& (forall|i: int, j: int| 0 <= i < j < g.nodes@.len() ==> !key_lt(node_key(#[trigger] g.nodes@[j]), node_key(#[trigger] g.nodes@[i])))
        &&& same_relations(g.relations@, kept_relations(relations, w.traversed))
        }
    }
}

/// A bounded, cycle-safe walk over the relations of a snapshot, from
/// `request.root`: breadth first, following only the relation kinds asked
/// for, never past `max_depth`, and reaching at most `max_nodes` entities
/// (`truncated` tells whether the bound cut anything off).
pub fn traverse(
    snapshot: &SnapshotId,
    entities: &[EntityObservation],
    relations: &[RelationObservation],
    request: &GraphRequest,
) -> (r: Result<GraphTraversal, QueryError>)
    requires
        forall|i: int| 0 <= i < entities@.len() ==> (#[trigger] entities@[i]).wf(),
        forall|i: int| 0 <= i < relations@.len() ==> (#[trigger] relations@[i]).wf(),
    ensures
        traversal_answer(*snapshot, entities@, relations@, request@, r),
{
    if request.max_nodes == 0 {
        return Err(QueryError::InvalidNodeLimit);
    }
    if !present_exec(entities, &request.root) {
        return Err(QueryError::EntityNotFound { entity: request.root.duplicate() });
    }
    let mut found: Vec<(String, u32)> = Vec::new();
    found.push((request.root.0.clone(), 0));
    let mut traversed: Vec<String> = Vec::new();
    let mut truncated = false;
    proof {
        assert(found_view(found@) =~= seq![(request.root@, 0u32)]);
        assert(id_set(traversed@) =~= Set::<Seq<char>>::empty());
    }
    let ghost goal = full_walk(relations@, entities@, request@);
    let mut head: usize = 0;
    while head < found.len() && head < request.max_nodes
        invariant
            forall|k: int| 0 <= k < found@.len() ==> present(entities@, (#[trigger] found@[k]).0@),
            goal == full_walk(relations@, entities@, request@),
            walk(walk_of(found@, traversed@, truncated), head as int, relations@, entities@, request@) == goal,
        decreases request.max_nodes - head,
    {
        let node = found[head].0.clone();
        let depth = found[head].1;
        assert(found_view(found@)[head as int] == (node@, depth));
        if depth < request.max_depth {
            visit_exec(&mut found, &mut traversed, &mut truncated, entities, relations, request, &node, depth);
        }
        head = head + 1;
    }
    let ghost w = walk_of(found@, traversed@, truncated);
    assert(w == goal);
    let order = sorted_positions(&found);
    let ghost fv = found_view(found@);
    let mut nodes: Vec<TraversedEntity> = Vec::new();
    let mut p: usize = 0;
    while p < order.len()
        invariant
            p <= order@.len(),
            fv == found_view(found@),
            order@.len() == found@.len(),
            forall|x: int| 0 <= x < order@.len() ==> (#[trigger] order@[x]) < found@.len(),
            forall|k: int| 0 <= k < found@.len() ==> present(entities@, (#[trigger] found@[k]).0@),
            nodes@.len() == p,
            forall|x: int| 0 <= x < p ==> node_for(#[trigger] nodes@[x], fv[order@[x] as int], entities@),
        decreases order@.len() - p,
    {
        let o = order[p];
        let id = &found[o].0;
        assert(present(entities@, id@));
        let at = last_index_exec(entities, id);
        let i = match at {
            Some(i) => i,
            None => {
                assert(false);
                0
            },
        };
        nodes.push(TraversedEntity { depth: found[o].1, observation: entities[i].copy() });
        proof {
            lemma_last_index_bounds(entities@, id@);
            assert(fv[o as int] == (id@, found@[o as int].1));
        }
        p = p + 1;
    }
    proof {
        assert forall|i: int| 0 <= i < nodes@.len() implies from_found(#[trigger] nodes@[i], w.found, entities@) by {
            assert(node_for(nodes@[i], w.found[order@[i] as int], entities@));
        }
        assert forall|k: int| 0 <= k < w.found.len() implies in_nodes(nodes@, #[trigger] w.found[k], entities@) by {
            assert(listed(order@, k));
            let x = choose|x: int| 0 <= x < order@.len() && order@[x] == k;
            assert(node_for(nodes@[x], w.found[k], entities@));
        }
        assert forall|i: int, j: int| 0 <= i < j < nodes@.len() implies !key_lt(node_key(#[trigger] nodes@[j]), node_key(#[trigger] nodes@[i])) by {
            assert(node_key(nodes@[j]) == fv[order@[j] as int]);
            assert(node_key(nodes@[i]) == fv[order@[i] as int]);
        }
    }
    let mut kept: Vec<RelationObservation> = Vec::new();
    let mut q: usize = 0;
    while q < relations.len()
        invariant
            q <= relations@.len(),
            w == walk_of(found@, traversed@, truncated),
            same_relations(kept@, kept_relations(relations@.take(q as int), w.traversed)),
        decreases relations@.len() - q,
    {
        let id = &relations[q].relation.id.0;
        let mut t: usize = 0;
        let mut hit = false;
        while t < traversed.len()
            invariant
                t <= traversed@.len(),
                hit == exists|x: int| 0 <= x < t && (#[trigger] traversed@[x])@ == id@,
            decreases traversed@.len() - t,
        {
            if traversed[t] == *id {
                hit = true;
            }
            t = t + 1;
        }
        assert(hit == w.traversed.contains(id@));
        proof {
            assert(relations@.take(q + 1).drop_last() =~= relations@.take(q as int));
            assert(relations@.take(q + 1).last() == relations@[q as int]);
        }
        if hit {
            kept.push(relations[q].copy());
        }
        q = q + 1;
    }
    assert(relations@.take(q as int) =~= relations@);
    Ok(GraphTraversal {
        schema_version: QUERY_SCHEMA_VERSION,
        snapshot: snapshot.duplicate(),
        root: request.root.duplicate(),
        direction: request.direction,
        nodes,
        relations: kept,
        truncated,
    })
}

/// What every state of a walk satisfies.
pub open spec fn walk_bounded(w: Walk, req: RequestView) -> bool {
    &&& 1 <= w.found.len() <= req.max_nodes
    &&& w.found[0] == (req.root, 0u32)
    &&& forall|i: int| 0 <= i < w.found.len() ==> (#[trigger] w.found[i]).1 <= req.max_depth
    &&& forall|i: int| 0 < i < w.found.len() ==> (#[trigger] w.found[i]).1 >= 1
    &&& forall|i: int, j: int| 0 <= i < j < w.found.len() ==> (#[trigger] w.found[i]).0 != (#[trigger] w.found[j]).0
}

proof fn lemma_visit_bounded(
    w: Walk,
    rels: Seq<RelationObservation>,
    ents: Seq<EntityObservation>,
    req: RequestView,
    node: Seq<char>,
    depth: u32,
    j: int,
)
    requires
        walk_bounded(w, req),
        depth < req.max_depth,
    ensures
        walk_bounded(visit(w, rels, ents, req, node, depth, j), req),
    decreases rels.len() - j,
{
    if 0 <= j < rels.len() {
        let r = rels[j];
        let w2 = if !kind_followed(req.kinds, r.relation.kind@) {
            w
        } else {
            match connected(r, node, req.direction) {
                None => w,
                Some(next) => if !present(ents, next) {
                    w
                } else if w.found.len() >= req.max_nodes && !known(w.found, next) {
                    Walk { truncated: true, ..w }
                } else {
                    let w1 = Walk { traversed: w.traversed.insert(r.relation.id@), ..w };
                    if known(w1.found, next) {
                        w1
                    } else {
                        let f = w1.found.push((next, next_depth(depth)));
                        assert forall|a: int, b: int| 0 <= a < b < f.len() implies (#[trigger] f[a]).0 != (#[trigger] f[b]).0 by {
                            if b == f.len() - 1 {
                                assert(f[a] == w.found[a]);
                            } else {
                                assert(f[a] == w.found[a] && f[b] == w.found[b]);
                            }
                        }
                        assert forall|a: int| 0 <= a < f.len() implies (#[trigger] f[a]).1 <= req.max_depth by {
                            if a < w.found.len() {
                                assert(f[a] == w.found[a]);
                            }
                        }
                        assert forall|a: int| 0 < a < f.len() implies (#[trigger] f[a]).1 >= 1 by {
                            if a < w.found.len() {
                                assert(f[a] == w.found[a]);
                            }
                        }
                        Walk { found: f, ..w1 }
                    }
                },
            }
        };
        assert(walk_bounded(w2, req));
        lemma_visit_bounded(w2, rels, ents, req, node, depth, j + 1);
    }
}

proof fn lemma_walk_bounded(
    w: Walk,
    head: int,
    rels: Seq<RelationObservation>,
    ents: Seq<EntityObservation>,
    req: RequestView,
)
    requires
        walk_bounded(w, req),
    ensures
        walk_bounded(walk(w, head, rels, ents, req), req),
    decreases req.max_nodes - head,
{
    if 0 <= head < w.found.len() && head < req.max_nodes {
        let (node, depth) = w.found[head];
        if depth < req.max_depth {
            lemma_visit_bounded(w, rels, ents, req, node, depth, 0);
        }
        let w2 = if depth >= req.max_depth {
            w
        } else {
            visit(w, rels, ents, req, node, depth, 0)
        };
        lemma_walk_bounded(w2, head + 1, rels, ents, req);
    }
}

/// A walk is bounded and cycle-safe: it reaches at least the root, first and
/// alone at depth zero, and at most `max_nodes` entities, each once, none
/// deeper than `max_depth`.
pub proof fn law_traversal_bounded(
    rels: Seq<RelationObservation>,
    ents: Seq<EntityObservation>,
    req: RequestView,
)
    requires
        req.max_nodes > 0,
    ensures
        walk_bounded(full_walk(rels, ents, req), req),
{
    let w0 = Walk { found: seq![(req.root, 0u32)], traversed: Set::empty(), truncated: false };
    assert(walk_bounded(w0, req));
    lemma_walk_bounded(w0, 0, rels, ents, req);
}

/// The entities of `b` begin with those of `a`.
pub open spec fn extends(a: Seq<(Seq<char>, u32)>, b: Seq<(Seq<char>, u32)>) -> bool {
    a.len() <= b.len() && forall|k: int| 0 <= k < a.len() ==> b[k] == a[k]
}

/// Some relation of `rels` with identifier `id`, of a kind the request
/// follows, joins two reached entities.
pub open spec fn joins_reached(rels: Seq<RelationObservation>, req: RequestView, found: Seq<(Seq<char>, u32)>, id: Seq<char>) -> bool {
    exists|j: int|
        0 <= j < rels.len() && (#[trigger] rels[j]).relation.id@ == id && kind_followed(req.kinds, rels[j].relation.kind@)
            && known(found, rels[j].relation.from@) && known(
            found,
            rels[j].relation.to@,
        )
}

/// What every state of a walk satisfies besides `walk_bounded`: each relation
/// followed joins two reached entities, and the walk is cut short only once
/// it holds as many entities as it may.
pub open spec fn walk_closed(w: Walk, rels: Seq<RelationObservation>, req: RequestView) -> bool {
    &&& w.truncated ==> w.found.len() >= req.max_nodes
    &&& forall|id: Seq<char>| #[trigger] w.traversed.contains(id) ==> joins_reached(rels, req, w.found, id)
}

proof fn lemma_known_extends(a: Seq<(Seq<char>, u32)>, b: Seq<(Seq<char>, u32)>, x: Seq<char>)
    requires
        extends(a, b),
        known(a, x),
    ensures
        known(b, x),
{
    let i = choose|i: int| 0 <= i < a.len() && (#[trigger] a[i]).0 == x;
    assert(b[i] == a[i]);
}

proof fn lemma_closed_extends(w: Walk, f: Seq<(Seq<char>, u32)>, rels: Seq<RelationObservation>, req: RequestView)
    requires
        walk_closed(w, rels, req),
        extends(w.found, f),
    ensures
        walk_closed(Walk { found: f, ..w }, rels, req),
{
    assert forall|id: Seq<char>| #[trigger] w.traversed.contains(id) implies joins_reached(rels, req, f, id) by {
        let j = choose|j: int|
            0 <= j < rels.len() && (#[trigger] rels[j]).relation.id@ == id && kind_followed(req.kinds, rels[j].relation.kind@)
                && known(w.found, rels[j].relation.from@)
                && known(w.found, rels[j].relation.to@);
        lemma_known_extends(w.found, f, rels[j].relation.from@);
        lemma_known_extends(w.found, f, rels[j].relation.to@);
    }
}

proof fn lemma_visit_closed(
    w: Walk,
    rels: Seq<RelationObservation>,
    ents: Seq<EntityObservation>,
    req: RequestView,
    node: Seq<char>,
    depth: u32,
    j: int,
)
    requires
        walk_closed(w, rels, req),
        known(w.found, node),
    ensures
        walk_closed(visit(w, rels, ents, req, node, depth, j), rels, req),
        extends(w.found, visit(w, rels, ents, req, node, depth, j).found),
    decreases rels.len() - j,
{
    if 0 <= j < rels.len() {
        let r = rels[j];
        let w2 = if !kind_followed(req.kinds, r.relation.kind@) {
            w
        } else {
            match connected(r, node, req.direction) {
                None => w,
                Some(next) => if !present(ents, next) {
                    w
                } else if w.found.len() >= req.max_nodes && !known(w.found, next) {
                    Walk { truncated: true, ..w }
                } else {
                    let w1 = Walk { traversed: w.traversed.insert(r.relation.id@), ..w };
                    if known(w1.found, next) {
                        assert(known(w.found, r.relation.from@) && known(w.found, r.relation.to@));
                        assert(joins_reached(rels, req, w.found, r.relation.id@));
                        assert(walk_closed(w1, rels, req));
                        w1
                    } else {
                        let f = w1.found.push((next, next_depth(depth)));
                        assert(extends(w.found, f));
                        lemma_closed_extends(w, f, rels, req);
                        assert(f[f.len() - 1].0 == next);
                        lemma_known_extends(w1.found, f, node);
                        assert(known(f, r.relation.from@) && known(f, r.relation.to@));
                        assert(joins_reached(rels, req, f, r.relation.id@));
                        let w3 = Walk { found: f, ..w1 };
                        assert(walk_closed(w3, rels, req));
                        w3
                    }
                },
            }
        };
        assert(walk_closed(w2, rels, req));
        assert(extends(w.found, w2.found));
        lemma_known_extends(w.found, w2.found, node);
        lemma_visit_closed(w2, rels, ents, req, node, depth, j + 1);
    }
}

proof fn lemma_walk_closed(
    w: Walk,
    head: int,
    rels: Seq<RelationObservation>,
    ents: Seq<EntityObservation>,
    req: RequestView,
)
    requires
        walk_closed(w, rels, req),
    ensures
        walk_closed(walk(w, head, rels, ents, req), rels, req),
    decreases req.max_nodes - head,
{
    if 0 <= head < w.found.len() && head < req.max_nodes {
        let (node, depth) = w.found[head];
        if depth < req.max_depth {
            assert(known(w.found, node));
            lemma_visit_closed(w, rels, ents, req, node, depth, 0);
        }
        let w2 = if depth >= req.max_depth {
            w
        } else {
            visit(w, rels, ents, req, node, depth, 0)
        };
        lemma_walk_closed(w2, head + 1, rels, ents, req);
    }
}

/// Every relation a walk follows is of a kind the request follows and joins
/// two entities it reached, and a walk cut short by its node bound reached
/// exactly that many entities.
pub proof fn law_traversal_closed(
    rels: Seq<RelationObservation>,
    ents: Seq<EntityObservation>,
    req: RequestView,
)
    requires
        req.max_nodes > 0,
    ensures
        ({
            let w = full_walk(rels, ents, req);
            &&& forall|id: Seq<char>| #[trigger] w.traversed.contains(id) ==> joins_reached(rels, req, w.found, id)
            &&& w.truncated ==> w.found.len() == req.max_nodes
        }),
{
    let w0 = Walk { found: seq![(req.root, 0u32)], traversed: Set::empty(), truncated: false };
    assert(walk_closed(w0, rels, req));
    lemma_walk_closed(w0, 0, rels, ents, req);
    law_traversal_bounded(rels, ents, req);
}

proof fn lemma_kept_relation(rels: Seq<RelationObservation>, ids: Set<Seq<char>>, i: int)
    requires
        0 <= i < kept_relations(rels, ids).len(),
    ensures
        exists|j: int| 0 <= j < rels.len() && #[trigger] rels[j] == kept_relations(rels, ids)[i] && ids.contains(rels[j].relation.id@),
    decreases rels.len(),
{
    let init = rels.drop_last();
    let k = kept_relations(init, ids);
    if ids.contains(rels.last().relation.id@) && i == k.len() {
        assert(rels[rels.len() - 1] == rels.last());
    } else {
        lemma_kept_relation(init, ids, i);
        let j = choose|j: int| 0 <= j < init.len() && #[trigger] init[j] == k[i] && ids.contains(init[j].relation.id@);
        assert(rels[j] == init[j]);
    }
}

/// No two relations of `rels` share an identifier.
pub open spec fn relation_ids_distinct(rels: Seq<RelationObservation>) -> bool {
    forall|a: int, b: int| 0 <= a < b < rels.len() ==> (#[trigger] rels[a]).relation.id@ != (#[trigger] rels[b]).relation.id@
}

/// Some node of a traversal is the entity `id`.
pub open spec fn has_node(nodes: Seq<TraversedEntity>, id: Seq<char>) -> bool {
    exists|n: int| 0 <= n < nodes.len() && (#[trigger] nodes[n]).observation.entity.id@ == id
}

/// In a traversal of relations with distinct identifiers, every relation
/// returned is of a kind the request follows and both its ends are among the
/// entities returned; and a traversal cut
/// short by its node bound returns exactly that many entities.
pub proof fn law_traversal_relations_join_nodes(
    snapshot: SnapshotId,
    ents: Seq<EntityObservation>,
    rels: Seq<RelationObservation>,
    req: RequestView,
    g: GraphTraversal,
)
    requires
        relation_ids_distinct(rels),
        traversal_answer(snapshot, ents, rels, req, Ok(g)),
    ensures
        forall|i: int| 0 <= i < g.relations@.len() ==> has_node(g.nodes@, (#[trigger] g.relations@[i]).relation.from@)
            && has_node(g.nodes@, g.relations@[i].relation.to@) && kind_followed(req.kinds, g.relations@[i].relation.kind@),
        g.truncated ==> g.nodes@.len() == req.max_nodes,
{
    let w = full_walk(rels, ents, req);
    law_traversal_closed(rels, ents, req);
    let kept = kept_relations(rels, w.traversed);
    assert forall|i: int| 0 <= i < g.relations@.len() implies has_node(g.nodes@, (#[trigger] g.relations@[i]).relation.from@)
        && has_node(g.nodes@, g.relations@[i].relation.to@) && kind_followed(req.kinds, g.relations@[i].relation.kind@) by {
        assert(same_relation_observation(g.relations@[i], kept[i]));
        lemma_kept_relation(rels, w.traversed, i);
        let j = choose|j: int| 0 <= j < rels.len() && #[trigger] rels[j] == kept[i] && w.traversed.contains(rels[j].relation.id@);
        assert(joins_reached(rels, req, w.found, rels[j].relation.id@));
        let j2 = choose|j2: int|
            0 <= j2 < rels.len() && (#[trigger] rels[j2]).relation.id@ == rels[j].relation.id@
                && kind_followed(req.kinds, rels[j2].relation.kind@) && known(w.found, rels[j2].relation.from@)
                && known(w.found, rels[j2].relation.to@);
        assert(j2 == j);
        let a = choose|a: int| 0 <= a < w.found.len() && (#[trigger] w.found[a]).0 == rels[j].relation.from@;
        let b = choose|b: int| 0 <= b < w.found.len() && (#[trigger] w.found[b]).0 == rels[j].relation.to@;
        assert(in_nodes(g.nodes@, w.found[a], ents));
        assert(in_nodes(g.nodes@, w.found[b], ents));
        let na = choose|na: int| 0 <= na < g.nodes@.len() && node_for(#[trigger] g.nodes@[na], w.found[a], ents);
        let nb = choose|nb: int| 0 <= nb < g.nodes@.len() && node_for(#[trigger] g.nodes@[nb], w.found[b], ents);
        assert(g.nodes@[na].observation.entity.id@ == rels[j].relation.from@);
        assert(g.nodes@[nb].observation.entity.id@ == rels[j].relation.to@);
    }
}

/// The `k`-th entity a walk reached was reached from an earlier one, which
/// lies above the depth bound, along a relation of a kind the walk follows,
/// one step deeper.
pub open spec fn reached_from(rels: Seq<RelationObservation>, found: Seq<(Seq<char>, u32)>, req: RequestView, k: int) -> bool {
    exists|j: int, x: int|
        0 <= j < k && 0 <= x < rels.len() && found[j].1 < req.max_depth && kind_followed(req.kinds, rels[x].relation.kind@) && connected(
            #[trigger] rels[x],
            #[trigger] found[j].0,
            req.direction,
        ) == Some(found[k].0) && found[k].1 == next_depth(found[j].1)
}

/// Every entity a walk reached but the root was reached from an earlier one.
pub open spec fn walk_rooted(w: Walk, rels: Seq<RelationObservation>, req: RequestView) -> bool {
    forall|k: int| 0 < k < w.found.len() ==> #[trigger] reached_from(rels, w.found, req, k)
}

proof fn lemma_rooted_extends(w: Walk, f: Seq<(Seq<char>, u32)>, rels: Seq<RelationObservation>, req: RequestView)
    requires
        walk_rooted(w, rels, req),
        extends(w.found, f),
    ensures
        forall|k: int| 0 < k < w.found.len() ==> #[trigger] reached_from(rels, f, req, k),
{
    assert forall|k: int| 0 < k < w.found.len() implies #[trigger] reached_from(rels, f, req, k) by {
        assert(reached_from(rels, w.found, req, k));
        let (j, x) = choose|j: int, x: int|
            0 <= j < k && 0 <= x < rels.len() && w.found[j].1 < req.max_depth && kind_followed(req.kinds, rels[x].relation.kind@) && connected(
                #[trigger] rels[x],
                #[trigger] w.found[j].0,
                req.direction,
            ) == Some(w.found[k].0) && w.found[k].1 == next_depth(w.found[j].1);
        assert(f[j] == w.found[j] && f[k] == w.found[k]);
    }
}

proof fn lemma_visit_rooted(
    w: Walk,
    rels: Seq<RelationObservation>,
    ents: Seq<EntityObservation>,
    req: RequestView,
    node: Seq<char>,
    depth: u32,
    j: int,
    h: int,
)
    requires
        walk_rooted(w, rels, req),
        0 <= h < w.found.len(),
        w.found[h] == (node, depth),
        depth < req.max_depth,
    ensures
        walk_rooted(visit(w, rels, ents, req, node, depth, j), rels, req),
        extends(w.found, visit(w, rels, ents, req, node, depth, j).found),
    decreases rels.len() - j,
{
    if 0 <= j < rels.len() {
        let r = rels[j];
        let w2 = if !kind_followed(req.kinds, r.relation.kind@) {
            w
        } else {
            match connected(r, node, req.direction) {
                None => w,
                Some(next) => if !present(ents, next) {
                    w
                } else if w.found.len() >= req.max_nodes && !known(w.found, next) {
                    Walk { truncated: true, ..w }
                } else {
                    let w1 = Walk { traversed: w.traversed.insert(r.relation.id@), ..w };
                    if known(w1.found, next) {
                        w1
                    } else {
                        let f = w1.found.push((next, next_depth(depth)));
                        assert(extends(w.found, f));
                        lemma_rooted_extends(w, f, rels, req);
                        let n = w.found.len() as int;
                        assert(f[h] == (node, depth));
                        assert(f[n] == (next, next_depth(depth)));
                        assert(connected(rels[j], f[h].0, req.direction) == Some(f[n].0));
                        assert(reached_from(rels, f, req, n));
                        let w3 = Walk { found: f, ..w1 };
                        assert forall|k: int| 0 < k < w3.found.len() implies #[trigger] reached_from(rels, w3.found, req, k) by {
                            if k < n {
                            }
                        }
                        w3
                    }
                },
            }
        };
        assert(walk_rooted(w2, rels, req));
        assert(extends(w.found, w2.found));
        assert(w2.found[h] == (node, depth));
        lemma_visit_rooted(w2, rels, ents, req, node, depth, j + 1, h);
    }
}

proof fn lemma_walk_rooted(
    w: Walk,
    head: int,
    rels: Seq<RelationObservation>,
    ents: Seq<EntityObservation>,
    req: RequestView,
)
    requires
        walk_rooted(w, rels, req),
    ensures
        walk_rooted(walk(w, head, rels, ents, req), rels, req),
    decreases req.max_nodes - head,
{
    if 0 <= head < w.found.len() && head < req.max_nodes {
        let (node, depth) = w.found[head];
        if depth < req.max_depth {
            lemma_visit_rooted(w, rels, ents, req, node, depth, 0, head);
        }
        let w2 = if depth >= req.max_depth {
            w
        } else {
            visit(w, rels, ents, req, node, depth, 0)
        };
        lemma_walk_rooted(w2, head + 1, rels, ents, req);
    }
}

/// Every entity of a traversal but the root was reached from another entity
/// of the traversal, along a relation of a kind the request follows, in the
/// direction it asks for, one step deeper.
pub proof fn law_traversal_nodes_are_reached_from_the_root(
    snapshot: SnapshotId,
    ents: Seq<EntityObservation>,
    rels: Seq<RelationObservation>,
    req: RequestView,
    g: GraphTraversal,
)
    requires
        traversal_answer(snapshot, ents, rels, req, Ok(g)),
    ensures
        forall|i: int| 0 <= i < g.nodes@.len() && (#[trigger] g.nodes@[i]).depth > 0 ==> exists|m: int, x: int| {
            &&& 0 <= m < g.nodes@.len() && 0 <= x < rels.len()
            &&& kind_followed(req.kinds, rels[x].relation.kind@)
            &&& connected(#[trigger] rels[x], #[trigger] g.nodes@[m].observation.entity.id@, req.direction)
                == Some(g.nodes@[i].observation.entity.id@)
            &&& g.nodes@[i].depth == next_depth(g.nodes@[m].depth)
        },
{
    let w0 = Walk { found: seq![(req.root, 0u32)], traversed: Set::empty(), truncated: false };
    assert(walk_rooted(w0, rels, req));
    lemma_walk_rooted(w0, 0, rels, ents, req);
    law_traversal_bounded(rels, ents, req);
    let w = full_walk(rels, ents, req);
    assert forall|i: int| 0 <= i < g.nodes@.len() && (#[trigger] g.nodes@[i]).depth > 0 implies exists|m: int, x: int| {
        &&& 0 <= m < g.nodes@.len() && 0 <= x < rels.len()
        &&& kind_followed(req.kinds, rels[x].relation.kind@)
        &&& connected(#[trigger] rels[x], #[trigger] g.nodes@[m].observation.entity.id@, req.direction)
            == Some(g.nodes@[i].observation.entity.id@)
        &&& g.nodes@[i].depth == next_depth(g.nodes@[m].depth)
    } by {
        assert(from_found(g.nodes@[i], w.found, ents));
        let k = choose|k: int| 0 <= k < w.found.len() && node_for(g.nodes@[i], #[trigger] w.found[k], ents);
        assert(k != 0);
        assert(reached_from(rels, w.found, req, k));
        let (j, x) = choose|j: int, x: int|
            0 <= j < k && 0 <= x < rels.len() && w.found[j].1 < req.max_depth && kind_followed(req.kinds, rels[x].relation.kind@) && connected(
                #[trigger] rels[x],
                #[trigger] w.found[j].0,
                req.direction,
            ) == Some(w.found[k].0) && w.found[k].1 == next_depth(w.found[j].1);
        assert(in_nodes(g.nodes@, w.found[j], ents));
        let m = choose|m: int| 0 <= m < g.nodes@.len() && node_for(#[trigger] g.nodes@[m], w.found[j], ents);
        assert(g.nodes@[m].observation.entity.id@ == w.found[j].0);
    }
}

// ---------------------------------------------------------------------------
// Breadth first
// ---------------------------------------------------------------------------
/// `b` is an entity of the snapshot that a walk may enter from `a`: a
/// relation of a kind the request follows leads there in its direction.
pub open spec fn steps_to(
    rels: Seq<RelationObservation>,
    ents: Seq<EntityObservation>,
    req: RequestView,
    a: Seq<char>,
    b: Seq<char>,
) -> bool {
    &&& present(ents, b)
    &&& exists|x: int|
        0 <= x < rels.len() && kind_followed(req.kinds, rels[x].relation.kind@) && #[trigger] connected(
            rels[x],
            a,
            req.direction,
        ) == Some(b)
}

/// Step `i` of the route `p` is one a walk may take.
pub open spec fn route_step(
    rels: Seq<RelationObservation>,
    ents: Seq<EntityObservation>,
    req: RequestView,
    p: Seq<Seq<char>>,
    i: int,
) -> bool {
    steps_to(rels, ents, req, p[i], p[i + 1])
}

/// `p` is a route from the root of a request, each step one it may take;
/// its length is `p.len() - 1`.
pub open spec fn is_route(
    rels: Seq<RelationObservation>,
    ents: Seq<EntityObservation>,
    req: RequestView,
    p: Seq<Seq<char>>,
) -> bool {
    &&& p.len() >= 1
    &&& p[0] == req.root
    &&& forall|i: int| 0 <= i < p.len() - 1 ==> #[trigger] route_step(rels, ents, req, p, i)
}

/// `y` was reached at depth at most `d`.
pub open spec fn reached_within(found: Seq<(Seq<char>, u32)>, y: Seq<char>, d: int) -> bool {
    exists|k: int| 0 <= k < found.len() && (#[trigger] found[k]).0 == y && found[k].1 <= d
}

/// No entity was reached deeper than `d`.
pub open spec fn all_within(found: Seq<(Seq<char>, u32)>, d: int) -> bool {
    forall|k: int| 0 <= k < found.len() ==> (#[trigger] found[k]).1 <= d
}

/// What became of the neighbour `y` of the `j`-th entity reached: it was
/// reached at most one step deeper, or it was left out because the node
/// bound was met, when nothing lay deeper than one step below entity `j`.
pub open spec fn neighbour_settled(w: Walk, req: RequestView, j: int, y: Seq<char>) -> bool {
    ||| reached_within(w.found, y, w.found[j].1 + 1)
    ||| !known(w.found, y) && w.truncated && w.found.len() >= req.max_nodes && all_within(w.found, w.found[j].1 + 1)
}

/// What holds of a breadth-first walk whose first `head` entities have been
/// gone on from.
pub open spec fn breadth_first(
    w: Walk,
    head: int,
    rels: Seq<RelationObservation>,
    ents: Seq<EntityObservation>,
    req: RequestView,
) -> bool {
    &&& walk_bounded(w, req)
    &&& 0 <= head <= w.found.len()
    &&& w.truncated ==> w.found.len() >= req.max_nodes
    &&& forall|k: int| 0 < k < w.found.len() ==> present(ents, (#[trigger] w.found[k]).0)
    &&& forall|i: int, j: int| 0 <= i < j < w.found.len() ==> (#[trigger] w.found[i]).1 <= (#[trigger] w.found[j]).1
    &&& head < w.found.len() ==> all_within(w.found, w.found[head].1 + 1)
    &&& forall|j: int, y: Seq<char>|
        0 <= j < head && w.found[j].1 < req.max_depth && #[trigger] steps_to(rels, ents, req, w.found[j].0, y)
            ==> neighbour_settled(w, req, j, y)
    &&& w.truncated ==> exists|j: int, y: Seq<char>|
        0 <= j < head && w.found[j].1 < req.max_depth && #[trigger] steps_to(rels, ents, req, w.found[j].0, y)
            && !known(w.found, y)
}

/// What holds while a breadth-first walk goes on from its `h`-th entity
/// `(node, depth)`, having followed the relations before `jx`.
pub open spec fn visiting(
    w: Walk,
    h: int,
    jx: int,
    rels: Seq<RelationObservation>,
    ents: Seq<EntityObservation>,
    req: RequestView,
    node: Seq<char>,
    depth: u32,
) -> bool {
    &&& walk_bounded(w, req)
    &&& 0 <= h < w.found.len()
    &&& w.found[h] == (node, depth)
    &&& depth < req.max_depth
    &&& 0 <= jx <= rels.len()
    &&& w.truncated ==> w.found.len() >= req.max_nodes
    &&& forall|k: int| 0 < k < w.found.len() ==> present(ents, (#[trigger] w.found[k]).0)
    &&& forall|i: int, j: int| 0 <= i < j < w.found.len() ==> (#[trigger] w.found[i]).1 <= (#[trigger] w.found[j]).1
    &&& all_within(w.found, depth + 1)
    &&& forall|j: int, y: Seq<char>|
        0 <= j < h && w.found[j].1 < req.max_depth && #[trigger] steps_to(rels, ents, req, w.found[j].0, y)
            ==> neighbour_settled(w, req, j, y)
    &&& forall|x: int|
        0 <= x < jx && kind_followed(req.kinds, rels[x].relation.kind@) && (#[trigger] connected(rels[x], node, req.direction)) is Some
            && present(ents, connected(rels[x], node, req.direction)->Some_0)
            ==> neighbour_settled(w, req, h, connected(rels[x], node, req.direction)->Some_0)
    &&& w.truncated ==> exists|j: int, y: Seq<char>|
        0 <= j <= h && w.found[j].1 < req.max_depth && #[trigger] steps_to(rels, ents, req, w.found[j].0, y)
            && !known(w.found, y)
}

proof fn lemma_reached_extends(a: Seq<(Seq<char>, u32)>, b: Seq<(Seq<char>, u32)>, y: Seq<char>, d: int)
    requires
        extends(a, b),
        reached_within(a, y, d),
    ensures
        reached_within(b, y, d),
{
    let k = choose|k: int| 0 <= k < a.len() && (#[trigger] a[k]).0 == y && a[k].1 <= d;
    assert(b[k] == a[k]);
}

/// A step of a walk keeps what became of a neighbour: it only adds an entity
/// while the node bound is not met, and never clears the truncation flag.
proof fn lemma_settled_step(w: Walk, w2: Walk, req: RequestView, j: int, y: Seq<char>)
    requires
        w2.found == w.found || (extends(w.found, w2.found) && w.found.len() < req.max_nodes),
        w.truncated ==> w2.truncated,
        0 <= j < w.found.len(),
        neighbour_settled(w, req, j, y),
    ensures
        neighbour_settled(w2, req, j, y),
{
    if w2.found != w.found {
        assert(w2.found[j] == w.found[j]);
        lemma_reached_extends(w.found, w2.found, y, w.found[j].1 + 1);
    }
}

proof fn lemma_visit_breadth_first(
    w: Walk,
    rels: Seq<RelationObservation>,
    ents: Seq<EntityObservation>,
    req: RequestView,
    node: Seq<char>,
    depth: u32,
    j: int,
    h: int,
)
    requires
        visiting(w, h, j, rels, ents, req, node, depth),
    ensures
        visiting(visit(w, rels, ents, req, node, depth, j), h, rels.len() as int, rels, ents, req, node, depth),
        extends(w.found, visit(w, rels, ents, req, node, depth, j).found),
    decreases rels.len() - j,
{
    if j < rels.len() {
        let r = rels[j];
        let w2 = if !kind_followed(req.kinds, r.relation.kind@) {
            w
        } else {
            match connected(r, node, req.direction) {
                None => w,
                Some(next) => if !present(ents, next) {
                    w
                } else if w.found.len() >= req.max_nodes && !known(w.found, next) {
                    let w3 = Walk { truncated: true, ..w };
                    assert(steps_to(rels, ents, req, w.found[h].0, next));
                    assert forall|a: int, y: Seq<char>|
                        0 <= a < h && w3.found[a].1 < req.max_depth && #[trigger] steps_to(rels, ents, req, w3.found[a].0, y)
                        implies neighbour_settled(w3, req, a, y) by {
                        lemma_settled_step(w, w3, req, a, y);
                    }
                    assert forall|x: int|
                        0 <= x < j + 1 && kind_followed(req.kinds, rels[x].relation.kind@)
                            && (#[trigger] connected(rels[x], node, req.direction)) is Some
                            && present(ents, connected(rels[x], node, req.direction)->Some_0)
                        implies neighbour_settled(w3, req, h, connected(rels[x], node, req.direction)->Some_0) by {
                        if x < j {
                            lemma_settled_step(w, w3, req, h, connected(rels[x], node, req.direction)->Some_0);
                        }
                    }
                    assert(visiting(w3, h, j + 1, rels, ents, req, node, depth));
                    w3
                } else {
                    let w1 = Walk { traversed: w.traversed.insert(r.relation.id@), ..w };
                    if known(w1.found, next) {
                        let k = choose|k: int| 0 <= k < w.found.len() && (#[trigger] w.found[k]).0 == next;
                        assert(reached_within(w.found, next, depth + 1));
                        assert forall|a: int, y: Seq<char>|
                            0 <= a < h && w1.found[a].1 < req.max_depth && #[trigger] steps_to(rels, ents, req, w1.found[a].0, y)
                            implies neighbour_settled(w1, req, a, y) by {
                            lemma_settled_step(w, w1, req, a, y);
                        }
                        assert forall|x: int|
                            0 <= x < j + 1 && kind_followed(req.kinds, rels[x].relation.kind@)
                                && (#[trigger] connected(rels[x], node, req.direction)) is Some
                                && present(ents, connected(rels[x], node, req.direction)->Some_0)
                            implies neighbour_settled(w1, req, h, connected(rels[x], node, req.direction)->Some_0) by {
                            if x < j {
                                lemma_settled_step(w, w1, req, h, connected(rels[x], node, req.direction)->Some_0);
                            }
                        }
                        assert(visiting(w1, h, j + 1, rels, ents, req, node, depth));
                        w1
                    } else {
                        let f = w1.found.push((next, next_depth(depth)));
                        let w3 = Walk { found: f, ..w1 };
                        let n = w.found.len() as int;
                        assert(next_depth(depth) == depth + 1);
                        assert(extends(w.found, f));
                        assert(!w.truncated);
                        assert forall|a: int, b: int| 0 <= a < b < f.len() implies (#[trigger] f[a]).0 != (#[trigger] f[b]).0 by {
                            if b == n {
                                assert(f[a] == w.found[a]);
                            } else {
                                assert(f[a] == w.found[a] && f[b] == w.found[b]);
                            }
                        }
                        assert forall|a: int| 0 <= a < f.len() implies (#[trigger] f[a]).1 <= req.max_depth by {
                            if a < n {
                                assert(f[a] == w.found[a]);
                            }
                        }
                        assert forall|a: int| 0 < a < f.len() implies (#[trigger] f[a]).1 >= 1 by {
                            if a < n {
                                assert(f[a] == w.found[a]);
                            }
                        }
                        assert(f[0] == w.found[0]);
                        assert(walk_bounded(w3, req));
                        assert forall|a: int| 0 < a < f.len() implies present(ents, (#[trigger] f[a]).0) by {
                            if a < n {
                                assert(f[a] == w.found[a]);
                            }
                        }
                        assert forall|a: int, b: int| 0 <= a < b < f.len() implies (#[trigger] f[a]).1 <= (#[trigger] f[b]).1 by {
                            assert(f[a] == w.found[a]);
                            if b < n {
                                assert(f[b] == w.found[b]);
                            }
                        }
                        assert forall|a: int| 0 <= a < f.len() implies (#[trigger] f[a]).1 <= depth + 1 by {
                            if a < n {
                                assert(f[a] == w.found[a]);
                            }
                        }
                        assert(all_within(f, depth + 1));
                        assert(f[h] == w.found[h]);
                        assert forall|a: int, y: Seq<char>|
                            0 <= a < h && w3.found[a].1 < req.max_depth && #[trigger] steps_to(rels, ents, req, w3.found[a].0, y)
                            implies neighbour_settled(w3, req, a, y) by {
                            assert(f[a] == w.found[a]);
                            lemma_settled_step(w, w3, req, a, y);
                        }
                        assert(f[n].0 == next && f[n].1 == depth + 1);
                        assert(reached_within(f, next, depth + 1));
                        assert forall|x: int|
                            0 <= x < j + 1 && kind_followed(req.kinds, rels[x].relation.kind@)
                                && (#[trigger] connected(rels[x], node, req.direction)) is Some
                                && present(ents, connected(rels[x], node, req.direction)->Some_0)
                            implies neighbour_settled(w3, req, h, connected(rels[x], node, req.direction)->Some_0) by {
                            if x < j {
                                lemma_settled_step(w, w3, req, h, connected(rels[x], node, req.direction)->Some_0);
                            }
                        }
                        assert(visiting(w3, h, j + 1, rels, ents, req, node, depth));
                        w3
                    }
                },
            }
        };
        assert(visiting(w2, h, j + 1, rels, ents, req, node, depth));
        assert(extends(w.found, w2.found));
        lemma_visit_breadth_first(w2, rels, ents, req, node, depth, j + 1, h);
    }
}

proof fn lemma_walk_breadth_first(
    w: Walk,
    head: int,
    rels: Seq<RelationObservation>,
    ents: Seq<EntityObservation>,
    req: RequestView,
)
    requires
        breadth_first(w, head, rels, ents, req),
    ensures
        breadth_first(walk(w, head, rels, ents, req), walk(w, head, rels, ents, req).found.len() as int, rels, ents, req),
    decreases req.max_nodes - head,
{
    if head < w.found.len() && head < req.max_nodes {
        let (node, depth) = w.found[head];
        if depth < req.max_depth {
            assert(visiting(w, head, 0, rels, ents, req, node, depth));
            lemma_visit_breadth_first(w, rels, ents, req, node, depth, 0, head);
            let v = visit(w, rels, ents, req, node, depth, 0);
            assert(v.found[head] == w.found[head]);
            assert forall|a: int, y: Seq<char>|
                0 <= a < head + 1 && v.found[a].1 < req.max_depth && #[trigger] steps_to(rels, ents, req, v.found[a].0, y)
                implies neighbour_settled(v, req, a, y) by {
                if a == head {
                    let x = choose|x: int|
                        0 <= x < rels.len() && kind_followed(req.kinds, rels[x].relation.kind@) && #[trigger] connected(
                            rels[x],
                            node,
                            req.direction,
                        ) == Some(y);
                }
            }
            if head + 1 < v.found.len() {
                assert(v.found[head].1 <= v.found[head + 1].1);
                assert forall|k: int| 0 <= k < v.found.len() implies (#[trigger] v.found[k]).1 <= v.found[head + 1].1 + 1 by {
                }
            }
            assert(breadth_first(v, head + 1, rels, ents, req));
            lemma_walk_breadth_first(v, head + 1, rels, ents, req);
        } else {
            if head + 1 < w.found.len() {
                assert(w.found[head].1 <= w.found[head + 1].1);
                assert forall|k: int| 0 <= k < w.found.len() implies (#[trigger] w.found[k]).1 <= w.found[head + 1].1 + 1 by {
                }
            }
            assert(breadth_first(w, head + 1, rels, ents, req));
            lemma_walk_breadth_first(w, head + 1, rels, ents, req);
        }
    }
}

/// Along a route, the `m`-th entity, if reached, was reached within `m`
/// steps; if not, nothing was reached deeper than `m`.
proof fn lemma_route_depths(
    w: Walk,
    rels: Seq<RelationObservation>,
    ents: Seq<EntityObservation>,
    req: RequestView,
    p: Seq<Seq<char>>,
    m: int,
)
    requires
        breadth_first(w, w.found.len() as int, rels, ents, req),
        is_route(rels, ents, req, p),
        0 <= m < p.len(),
    ensures
        known(w.found, p[m]) ==> reached_within(w.found, p[m], m),
        !known(w.found, p[m]) ==> all_within(w.found, m),
    decreases m,
{
    if m == 0 {
        assert(w.found[0].0 == p[0]);
        assert(reached_within(w.found, p[0], 0));
    } else {
        lemma_route_depths(w, rels, ents, req, p, m - 1);
        assert(route_step(rels, ents, req, p, m - 1));
        if known(w.found, p[m - 1]) {
            let j = choose|j: int| 0 <= j < w.found.len() && (#[trigger] w.found[j]).0 == p[m - 1] && w.found[j].1 <= m - 1;
            if w.found[j].1 < req.max_depth {
                assert(steps_to(rels, ents, req, w.found[j].0, p[m]));
                assert(neighbour_settled(w, req, j, p[m]));
                if reached_within(w.found, p[m], w.found[j].1 + 1) {
                    let k = choose|k: int| 0 <= k < w.found.len() && (#[trigger] w.found[k]).0 == p[m] && w.found[k].1 <= w.found[j].1 + 1;
                    assert(reached_within(w.found, p[m], m));
                } else {
                    assert forall|k: int| 0 <= k < w.found.len() implies (#[trigger] w.found[k]).1 <= m by {}
                }
            } else {
                assert forall|k: int| 0 <= k < w.found.len() implies (#[trigger] w.found[k]).1 <= m by {}
                if known(w.found, p[m]) {
                    let k = choose|k: int| 0 <= k < w.found.len() && (#[trigger] w.found[k]).0 == p[m];
                    assert(reached_within(w.found, p[m], m));
                }
            }
        } else {
            assert forall|k: int| 0 <= k < w.found.len() implies (#[trigger] w.found[k]).1 <= m by {}
            if known(w.found, p[m]) {
                let k = choose|k: int| 0 <= k < w.found.len() && (#[trigger] w.found[k]).0 == p[m];
                assert(reached_within(w.found, p[m], m));
            }
        }
    }
}

/// A route to the `k`-th entity reached, as long as its depth.
proof fn lemma_route_to(
    w: Walk,
    rels: Seq<RelationObservation>,
    ents: Seq<EntityObservation>,
    req: RequestView,
    k: int,
) -> (p: Seq<Seq<char>>)
    requires
        breadth_first(w, w.found.len() as int, rels, ents, req),
        walk_rooted(w, rels, req),
        0 <= k < w.found.len(),
    ensures
        is_route(rels, ents, req, p),
        p.len() == w.found[k].1 + 1,
        p.last() == w.found[k].0,
    decreases k,
{
    if k == 0 {
        seq![req.root]
    } else {
        assert(reached_from(rels, w.found, req, k));
        let (j, x) = choose|j: int, x: int|
            0 <= j < k && 0 <= x < rels.len() && w.found[j].1 < req.max_depth && kind_followed(req.kinds, rels[x].relation.kind@)
                && connected(#[trigger] rels[x], #[trigger] w.found[j].0, req.direction) == Some(w.found[k].0)
                && w.found[k].1 == next_depth(w.found[j].1);
        let q = lemma_route_to(w, rels, ents, req, j);
        let p = q.push(w.found[k].0);
        assert(steps_to(rels, ents, req, w.found[j].0, w.found[k].0));
        assert forall|i: int| 0 <= i < p.len() - 1 implies #[trigger] route_step(rels, ents, req, p, i) by {
            if i < q.len() - 1 {
                assert(route_step(rels, ents, req, q, i));
                assert(p[i] == q[i] && p[i + 1] == q[i + 1]);
            } else {
                assert(p[i] == q.last() && p[i + 1] == w.found[k].0);
            }
        }
        p
    }
}

/// A traversal is breadth first: the root comes first, at depth zero; each
/// entity's depth is the length of a shortest route to it from the root
/// along the relations the request follows, in its direction, through
/// entities of the snapshot; and the traversal is truncated exactly when
/// some entity above the depth bound has a neighbour left out.
pub proof fn law_traversal_is_breadth_first(
    snapshot: SnapshotId,
    ents: Seq<EntityObservation>,
    rels: Seq<RelationObservation>,
    req: RequestView,
    g: GraphTraversal,
)
    requires
        traversal_answer(snapshot, ents, rels, req, Ok(g)),
    ensures
        g.nodes@.len() >= 1 && g.nodes@[0].observation.entity.id@ == req.root && g.nodes@[0].depth == 0,
        forall|i: int| 0 <= i < g.nodes@.len() ==> exists|p: Seq<Seq<char>>|
            #[trigger] is_route(rels, ents, req, p) && p.len() == (#[trigger] g.nodes@[i]).depth + 1
                && p.last() == g.nodes@[i].observation.entity.id@,
        forall|i: int, p: Seq<Seq<char>>|
            0 <= i < g.nodes@.len() && #[trigger] is_route(rels, ents, req, p) && p.last() == (#[trigger] g.nodes@[i]).observation.entity.id@
                ==> g.nodes@[i].depth <= p.len() - 1,
        g.truncated <==> exists|i: int, y: Seq<char>|
            0 <= i < g.nodes@.len() && (#[trigger] g.nodes@[i]).depth < req.max_depth
                && #[trigger] steps_to(rels, ents, req, g.nodes@[i].observation.entity.id@, y) && !has_node(g.nodes@, y),
{
    let w0 = Walk { found: seq![(req.root, 0u32)], traversed: Set::empty(), truncated: false };
    assert(walk_bounded(w0, req));
    assert(breadth_first(w0, 0, rels, ents, req));
    lemma_walk_breadth_first(w0, 0, rels, ents, req);
    assert(walk_rooted(w0, rels, req));
    lemma_walk_rooted(w0, 0, rels, ents, req);
    let w = full_walk(rels, ents, req);
    let n = w.found.len() as int;
    // The root.
    assert(in_nodes(g.nodes@, w.found[0], ents));
    let r0 = choose|r0: int| 0 <= r0 < g.nodes@.len() && node_for(#[trigger] g.nodes@[r0], w.found[0], ents);
    if r0 != 0 {
        assert(from_found(g.nodes@[0], w.found, ents));
        let k0 = choose|k0: int| 0 <= k0 < n && node_for(g.nodes@[0], #[trigger] w.found[k0], ents);
        if k0 == 0 {
            assert(g.nodes@[0].observation.entity.id@ == req.root);
        } else {
            assert(w.found[k0].1 >= 1);
            assert(key_lt(node_key(g.nodes@[r0]), node_key(g.nodes@[0])));
        }
    }
    // Each depth is the length of some route.
    assert forall|i: int| 0 <= i < g.nodes@.len() implies exists|p: Seq<Seq<char>>|
        #[trigger] is_route(rels, ents, req, p) && p.len() == (#[trigger] g.nodes@[i]).depth + 1
            && p.last() == g.nodes@[i].observation.entity.id@ by {
        let k = choose|k: int| 0 <= k < n && node_for(g.nodes@[i], #[trigger] w.found[k], ents);
        let p = lemma_route_to(w, rels, ents, req, k);
        assert(is_route(rels, ents, req, p));
    }
    // No route is shorter.
    assert forall|i: int, p: Seq<Seq<char>>|
        0 <= i < g.nodes@.len() && #[trigger] is_route(rels, ents, req, p) && p.last() == (#[trigger] g.nodes@[i]).observation.entity.id@
        implies g.nodes@[i].depth <= p.len() - 1 by {
        let k = choose|k: int| 0 <= k < n && node_for(g.nodes@[i], #[trigger] w.found[k], ents);
        lemma_route_depths(w, rels, ents, req, p, p.len() - 1);
        assert(p[p.len() - 1] == p.last());
        assert(known(w.found, p.last()));
        let k2 = choose|k2: int| 0 <= k2 < n && (#[trigger] w.found[k2]).0 == p.last() && w.found[k2].1 <= p.len() - 1;
        assert(k2 == k);
    }
    // Truncation.
    if g.truncated {
        let (j, y) = choose|j: int, y: Seq<char>|
            0 <= j < n && w.found[j].1 < req.max_depth && #[trigger] steps_to(rels, ents, req, w.found[j].0, y)
                && !known(w.found, y);
        assert(in_nodes(g.nodes@, w.found[j], ents));
        let i = choose|i: int| 0 <= i < g.nodes@.len() && node_for(#[trigger] g.nodes@[i], w.found[j], ents);
        if has_node(g.nodes@, y) {
            let a = choose|a: int| 0 <= a < g.nodes@.len() && (#[trigger] g.nodes@[a]).observation.entity.id@ == y;
            let k = choose|k: int| 0 <= k < n && node_for(g.nodes@[a], #[trigger] w.found[k], ents);
            assert(known(w.found, y));
        }
        assert(steps_to(rels, ents, req, g.nodes@[i].observation.entity.id@, y));
    }
    assert forall|i: int, y: Seq<char>|
        0 <= i < g.nodes@.len() && (#[trigger] g.nodes@[i]).depth < req.max_depth
            && #[trigger] steps_to(rels, ents, req, g.nodes@[i].observation.entity.id@, y) && !has_node(g.nodes@, y)
        implies g.truncated by {
        let k = choose|k: int| 0 <= k < n && node_for(g.nodes@[i], #[trigger] w.found[k], ents);
        assert(steps_to(rels, ents, req, w.found[k].0, y));
        assert(neighbour_settled(w, req, k, y));
        if reached_within(w.found, y, w.found[k].1 + 1) {
            let b = choose|b: int| 0 <= b < n && (#[trigger] w.found[b]).0 == y && w.found[b].1 <= w.found[k].1 + 1;
            assert(in_nodes(g.nodes@, w.found[b], ents));
            let a = choose|a: int| 0 <= a < g.nodes@.len() && node_for(#[trigger] g.nodes@[a], w.found[b], ents);
            assert(has_node(g.nodes@, y));
        }
    }
}

/// `id` is one of `ids`.
pub open spec fn id_listed(ids: Seq<String>, id: Seq<char>) -> bool {
    exists|x: int| 0 <= x < ids.len() && ids[x]@ == id
}

/// A changed entity, with both observations.
#[derive(Debug, Clone, PartialEq)]
pub struct EntityChange {
    pub id: EntityId,
    pub before: EntityObservation,
    pub after: EntityObservation,
}

/// A changed relation, with both observations.
#[derive(Debug, Clone, PartialEq)]
pub struct RelationChange {
    pub id: RelationId,
    pub before: RelationObservation,
    pub after: RelationObservation,
}

/// `id` is one of the first `k` of `ids`.
pub open spec fn listed_upto(ids: Seq<String>, k: int, id: Seq<char>) -> bool {
    exists|x: int| 0 <= x < k && ids[x]@ == id
}

// ---------------------------------------------------------------------------
// Comparing entity observations
// ---------------------------------------------------------------------------
/// Whether `s` holds an observation of the entity `id`.
pub open spec fn entity_present(s: Seq<EntityObservation>, id: Seq<char>) -> bool {
    exists|i: int| 0 <= i < s.len() && (#[trigger] s[i]).entity.id@ == id
}

/// The position of the last observation of the entity `id` (the one a lookup by
/// id keeps), or -1.
pub open spec fn entity_last(s: Seq<EntityObservation>, id: Seq<char>) -> int
    decreases s.len(),
{
    if s.len() == 0 {
        -1
    } else if s.last().entity.id@ == id {
        s.len() - 1
    } else {
        entity_last(s.drop_last(), id)
    }
}

/// The last observation of the entity `id` in `s`.
pub open spec fn entity_kept(s: Seq<EntityObservation>, id: Seq<char>) -> EntityObservation {
    s[entity_last(s, id)]
}

proof fn lemma_entity_last(s: Seq<EntityObservation>, id: Seq<char>)
    ensures
        -1 <= entity_last(s, id) < s.len(),
        entity_last(s, id) >= 0 ==> s[entity_last(s, id)].entity.id@ == id,
        entity_present(s, id) ==> entity_last(s, id) >= 0,
    decreases s.len(),
{
    if s.len() > 0 {
        lemma_entity_last(s.drop_last(), id);
        if entity_present(s, id) && s.last().entity.id@ != id {
            let i = choose|i: int| 0 <= i < s.len() && (#[trigger] s[i]).entity.id@ == id;
            assert(s.drop_last()[i] == s[i]);
        }
    }
}

fn entity_last_exec(s: &[EntityObservation], id: &String) -> (r: Option<usize>)
    ensures
        match r {
            Some(i) => i == entity_last(s@, id@) && i < s@.len(),
            None => !entity_present(s@, id@),
        },
        r is Some ==> entity_present(s@, id@),
{
    let mut i: usize = s.len();
    assert(s@.take(i as int) =~= s@);
    while i > 0
        invariant
            i <= s@.len(),
            entity_last(s@, id@) == entity_last(s@.take(i as int), id@),
            forall|k: int| i <= k < s@.len() ==> (#[trigger] s@[k]).entity.id@ != id@,
        decreases i,
    {
        assert(s@.take(i as int).drop_last() =~= s@.take(i - 1));
        if s[i - 1].entity.id.0 == *id {
            assert(s@[i - 1].entity.id@ == id@);
            return Some(i - 1);
        }
        i = i - 1;
    }
    proof {
        if entity_present(s@, id@) {
            let k = choose|k: int| 0 <= k < s@.len() && (#[trigger] s@[k]).entity.id@ == id@;
        }
    }
    None
}

/// Whether `ids` is strictly increasing and names exactly the entities of `s`.
pub open spec fn entity_ids_of(ids: Seq<String>, s: Seq<EntityObservation>) -> bool {
    &&& forall|a: int, b: int| 0 <= a < b < ids.len() ==> seq_lt(#[trigger] ids[a]@, #[trigger] ids[b]@)
    &&& forall|a: int| 0 <= a < ids.len() ==> entity_present(s, #[trigger] ids[a]@)
    &&& forall|i: int| 0 <= i < s.len() ==> #[trigger] id_listed(ids, s[i].entity.id@)
}

/// The distinct ids of `s`, in increasing order.
#[verifier::rlimit(30)]
fn entity_sorted_ids(s: &[EntityObservation]) -> (ids: Vec<String>)
    ensures
        entity_ids_of(ids@, s@),
{
    let mut ids: Vec<String> = Vec::new();
    let mut i: usize = 0;
    while i < s.len()
        invariant
            i <= s@.len(),
            entity_ids_of(ids@, s@.take(i as int)),
            forall|a: int| 0 <= a < ids@.len() ==> entity_present(s@, #[trigger] ids@[a]@),
        decreases s@.len() - i,
    {
        let key = chars_of(s[i].entity.id.0.as_str());
        let mut p: usize = 0;
        let mut state: u8 = 0;
        while p < ids.len() && state == 0
            invariant
                p <= ids@.len(),
                state <= 2,
                forall|q: int| 0 <= q < p ==> seq_lt(#[trigger] ids@[q]@, key@),
                state == 1 ==> p < ids@.len() && seq_lt(key@, ids@[p as int]@),
                state == 2 ==> p < ids@.len() && ids@[p as int]@ == key@,
            decreases 2 * (ids@.len() - p) + if state == 0 {
                1int
            } else {
                0int
            },
        {
            let c = compare_chars(&chars_of(ids[p].as_str()), &key);
            if c > 0 {
                state = 1;
            } else if c == 0 {
                state = 2;
            } else {
                p = p + 1;
            }
        }
        let ghost old_ids = ids@;
        let ghost t = s@.take(i + 1);
        assert(s@.take(i as int) =~= t.drop_last());
        if state != 2 {
            ids.insert(p, string_of(&key));
            proof {
                assert forall|a: int, b: int| 0 <= a < b < ids@.len() implies seq_lt(#[trigger] ids@[a]@, #[trigger] ids@[b]@) by {
                    if a < p && b < p {
                        assert(ids@[a] == old_ids[a] && ids@[b] == old_ids[b]);
                    } else if a < p && b == p {
                        assert(ids@[a] == old_ids[a]);
                    } else if a < p {
                        assert(ids@[a] == old_ids[a] && ids@[b] == old_ids[b - 1]);
                    } else if a == p {
                        assert(ids@[b] == old_ids[b - 1]);
                        if b - 1 > p {
                            lemma_seq_lt_transitive(key@, old_ids[p as int]@, old_ids[b - 1]@);
                        }
                    } else {
                        assert(ids@[a] == old_ids[a - 1] && ids@[b] == old_ids[b - 1]);
                    }
                }
                assert forall|a: int| 0 <= a < ids@.len() implies entity_present(s@, #[trigger] ids@[a]@) by {
                    if a < p {
                        assert(ids@[a] == old_ids[a]);
                    } else if a == p {
                        assert(s@[i as int].entity.id@ == key@);
                    } else {
                        assert(ids@[a] == old_ids[a - 1]);
                    }
                }
                assert forall|a: int| 0 <= a < ids@.len() implies entity_present(t, #[trigger] ids@[a]@) by {
                    if a < p {
                        assert(ids@[a] == old_ids[a]);
                        assert(entity_present(t.drop_last(), old_ids[a]@));
                        let j = choose|j: int| 0 <= j < t.drop_last().len() && (#[trigger] t.drop_last()[j]).entity.id@ == old_ids[a]@;
                        assert(t[j] == t.drop_last()[j]);
                    } else if a == p {
                        assert(t[i as int].entity.id@ == key@);
                    } else {
                        assert(ids@[a] == old_ids[a - 1]);
                        assert(entity_present(t.drop_last(), old_ids[a - 1]@));
                        let j = choose|j: int| 0 <= j < t.drop_last().len() && (#[trigger] t.drop_last()[j]).entity.id@ == old_ids[a - 1]@;
                        assert(t[j] == t.drop_last()[j]);
                    }
                }
                assert forall|k: int| 0 <= k < t.len() implies #[trigger] id_listed(ids@, t[k].entity.id@) by {
                    if k < i {
                        assert(t[k] == t.drop_last()[k]);
                        assert(id_listed(old_ids, t.drop_last()[k].entity.id@));
                        let x = choose|x: int| 0 <= x < old_ids.len() && old_ids[x]@ == t[k].entity.id@;
                        if x < p {
                            assert(ids@[x] == old_ids[x]);
                        } else {
                            assert(ids@[x + 1] == old_ids[x]);
                        }
                    } else {
                        assert(ids@[p as int]@ == key@);
                    }
                }
            }
        } else {
            proof {
                assert forall|a: int| 0 <= a < ids@.len() implies entity_present(t, #[trigger] ids@[a]@) by {
                    assert(entity_present(t.drop_last(), ids@[a]@));
                    let j = choose|j: int| 0 <= j < t.drop_last().len() && (#[trigger] t.drop_last()[j]).entity.id@ == ids@[a]@;
                    assert(t[j] == t.drop_last()[j]);
                }
                assert forall|k: int| 0 <= k < t.len() implies #[trigger] id_listed(ids@, t[k].entity.id@) by {
                    if k < i {
                        assert(t[k] == t.drop_last()[k]);
                        assert(id_listed(ids@, t.drop_last()[k].entity.id@));
                    } else {
                        assert(ids@[p as int]@ == key@);
                    }
                }
            }
        }
        i = i + 1;
    }
    assert(s@.take(i as int) =~= s@);
    ids
}

/// Whether some observation of `out` is of the entity `id`.
pub open spec fn entity_has(out: Seq<EntityObservation>, id: Seq<char>) -> bool {
    exists|a: int| 0 <= a < out.len() && (#[trigger] out[a]).entity.id@ == id
}

/// Whether some change of `changed` is of the entity `id`.
pub open spec fn entity_change_has(changed: Seq<EntityChange>, id: Seq<char>) -> bool {
    exists|a: int| 0 <= a < changed.len() && (#[trigger] changed[a]).id@ == id
}

/// `out` holds the last observation in `s`, by increasing id, of each entity
/// that `other` lacks.
pub open spec fn entity_added(other: Seq<EntityObservation>, s: Seq<EntityObservation>, out: Seq<EntityObservation>) -> bool {
    &&& forall|a: int, b: int| 0 <= a < b < out.len() ==> seq_lt((#[trigger] out[a]).entity.id@, (#[trigger] out[b]).entity.id@)
    &&& forall|a: int| 0 <= a < out.len() ==> entity_present(s, (#[trigger] out[a]).entity.id@)
        && !entity_present(other, out[a].entity.id@) && same_observation(out[a], entity_kept(s, out[a].entity.id@))
    &&& forall|i: int| 0 <= i < s.len() && !entity_present(other, (#[trigger] s[i]).entity.id@) ==> entity_has(out, s[i].entity.id@)
}

/// The entities both sides hold whose last observations say different things,
/// by increasing id, with both observations.
pub open spec fn entity_changed(before: Seq<EntityObservation>, after: Seq<EntityObservation>, changed: Seq<EntityChange>) -> bool {
    &&& forall|a: int, b: int| 0 <= a < b < changed.len() ==> seq_lt((#[trigger] changed[a]).id@, (#[trigger] changed[b]).id@)
    &&& forall|a: int| 0 <= a < changed.len() ==> entity_change_ok(before, after, #[trigger] changed[a])
    &&& forall|i: int| 0 <= i < before.len() && entity_present(after, (#[trigger] before[i]).entity.id@)
        && !same_entity_content(entity_kept(before, before[i].entity.id@), entity_kept(after, before[i].entity.id@))
        ==> entity_change_has(changed, before[i].entity.id@)
}

/// `c` reports an entity both sides hold and describe differently.
pub open spec fn entity_change_ok(before: Seq<EntityObservation>, after: Seq<EntityObservation>, c: EntityChange) -> bool {
    &&& entity_present(after, c.id@)
    &&& entity_present(before, c.id@)
    &&& !same_entity_content(entity_kept(before, c.id@), entity_kept(after, c.id@))
    &&& same_observation(c.before, entity_kept(before, c.id@))
    &&& same_observation(c.after, entity_kept(after, c.id@))
}

/// The last observations of the entities that `other` lacks, by increasing id.
#[verifier::rlimit(60)]
fn entity_only_in(other: &[EntityObservation], s: &[EntityObservation]) -> (r: Vec<EntityObservation>)
    requires
        forall|i: int| 0 <= i < s@.len() ==> (#[trigger] s@[i]).wf(),
    ensures
        entity_added(other@, s@, r@),
{
    let ids = entity_sorted_ids(s);
    let mut out: Vec<EntityObservation> = Vec::new();
    let mut k: usize = 0;
    while k < ids.len()
        invariant
            k <= ids@.len(),
            entity_ids_of(ids@, s@),
            forall|a: int| 0 <= a < out@.len() ==> listed_upto(ids@, k as int, (#[trigger] out@[a]).entity.id@),
            forall|a: int, b: int| 0 <= a < b < out@.len() ==> seq_lt((#[trigger] out@[a]).entity.id@, (#[trigger] out@[b]).entity.id@),
            forall|a: int| 0 <= a < out@.len() ==> entity_present(s@, (#[trigger] out@[a]).entity.id@)
                && !entity_present(other@, out@[a].entity.id@) && same_observation(out@[a], entity_kept(s@, out@[a].entity.id@)),
            forall|x: int| 0 <= x < k && !entity_present(other@, #[trigger] ids@[x]@) ==> entity_has(out@, ids@[x]@),
        decreases ids@.len() - k,
    {
        let id = &ids[k];
        proof {
            lemma_entity_last(s@, id@);
        }
        if entity_last_exec(other, id).is_none() {
            let i = match entity_last_exec(s, id) {
                Some(i) => i,
                None => {
                    assert(false);
                    0
                },
            };
            let ghost old_out = out@;
            out.push(s[i].copy());
            proof {
                assert(s@[i as int].entity.id@ == id@);
                assert forall|x: int, y: int| 0 <= x < y < out@.len() implies seq_lt((#[trigger] out@[x]).entity.id@, (#[trigger] out@[y]).entity.id@) by {
                    if y == old_out.len() {
                        assert(out@[x] == old_out[x]);
                        assert(listed_upto(ids@, k as int, old_out[x].entity.id@));
                        let z = choose|z: int| 0 <= z < k && ids@[z]@ == old_out[x].entity.id@;
                    } else {
                        assert(out@[x] == old_out[x] && out@[y] == old_out[y]);
                    }
                }
                assert forall|x: int| 0 <= x < out@.len() implies listed_upto(ids@, k + 1, (#[trigger] out@[x]).entity.id@) by {
                    if x < old_out.len() {
                        assert(out@[x] == old_out[x]);
                        assert(listed_upto(ids@, k as int, old_out[x].entity.id@));
                        let z = choose|z: int| 0 <= z < k && ids@[z]@ == old_out[x].entity.id@;
                    } else {
                        assert(ids@[k as int]@ == out@[x].entity.id@);
                    }
                }
                assert forall|x: int| 0 <= x < k + 1 && !entity_present(other@, #[trigger] ids@[x]@) implies entity_has(out@, ids@[x]@) by {
                    if x < k {
                        assert(entity_has(old_out, ids@[x]@));
                        let a = choose|a: int| 0 <= a < old_out.len() && (#[trigger] old_out[a]).entity.id@ == ids@[x]@;
                        assert(out@[a] == old_out[a]);
                    } else {
                        assert(out@[old_out.len() as int].entity.id@ == ids@[x]@);
                    }
                }
                assert forall|a: int| 0 <= a < out@.len() implies entity_present(s@, (#[trigger] out@[a]).entity.id@)
                    && !entity_present(other@, out@[a].entity.id@) && same_observation(out@[a], entity_kept(s@, out@[a].entity.id@)) by {
                    if a < old_out.len() {
                        assert(out@[a] == old_out[a]);
                    }
                }
            }
        }
        k = k + 1;
    }
    proof {
        assert forall|i: int| 0 <= i < s@.len() && !entity_present(other@, (#[trigger] s@[i]).entity.id@) implies entity_has(out@, s@[i].entity.id@) by {
            assert(id_listed(ids@, s@[i].entity.id@));
            let x = choose|x: int| 0 <= x < ids@.len() && ids@[x]@ == s@[i].entity.id@;
            assert(!entity_present(other@, ids@[x]@));
        }
    }
    out
}

/// Compares the entity observations of two snapshots by id: what only the
/// second has, what only the first has, and what both have but describe
/// differently.
#[verifier::rlimit(60)]
pub fn diff_entities(before: &[EntityObservation], after: &[EntityObservation]) -> (r: (Vec<EntityObservation>, Vec<EntityObservation>, Vec<EntityChange>))
    requires
        forall|i: int| 0 <= i < before@.len() ==> (#[trigger] before@[i]).wf(),
        forall|i: int| 0 <= i < after@.len() ==> (#[trigger] after@[i]).wf(),
    ensures
        entity_added(before@, after@, r.0@),
        entity_added(after@, before@, r.1@),
        entity_changed(before@, after@, r.2@),
{
    let added = entity_only_in(before, after);
    let removed = entity_only_in(after, before);
    let ids = entity_sorted_ids(before);
    let mut changed: Vec<EntityChange> = Vec::new();
    let mut k: usize = 0;
    while k < ids.len()
        invariant
            k <= ids@.len(),
            forall|i: int| 0 <= i < before@.len() ==> (#[trigger] before@[i]).wf(),
            forall|i: int| 0 <= i < after@.len() ==> (#[trigger] after@[i]).wf(),
            entity_ids_of(ids@, before@),
            forall|a: int| 0 <= a < changed@.len() ==> listed_upto(ids@, k as int, (#[trigger] changed@[a]).id@),
            forall|a: int, b: int| 0 <= a < b < changed@.len() ==> seq_lt((#[trigger] changed@[a]).id@, (#[trigger] changed@[b]).id@),
            forall|a: int| 0 <= a < changed@.len() ==> entity_change_ok(before@, after@, #[trigger] changed@[a]),
            forall|x: int| 0 <= x < k && entity_present(after@, #[trigger] ids@[x]@)
                && !same_entity_content(entity_kept(before@, ids@[x]@), entity_kept(after@, ids@[x]@))
                ==> entity_change_has(changed@, ids@[x]@),
        decreases ids@.len() - k,
    {
        let id = &ids[k];
        proof {
            lemma_entity_last(before@, id@);
            lemma_entity_last(after@, id@);
        }
        let b = match entity_last_exec(before, id) {
            Some(b) => b,
            None => {
                assert(false);
                0
            },
        };
        if let Some(a) = entity_last_exec(after, id) {
            if !entity_content_equal(&before[b], &after[a]) {
                let ghost old_changed = changed@;
                let c = EntityChange { id: EntityId(id.clone()), before: before[b].copy(), after: after[a].copy() };
                assert(entity_change_ok(before@, after@, c));
                changed.push(c);
                proof {
                    assert forall|x: int, y: int| 0 <= x < y < changed@.len() implies seq_lt((#[trigger] changed@[x]).id@, (#[trigger] changed@[y]).id@) by {
                        if y == old_changed.len() {
                            assert(changed@[x] == old_changed[x]);
                            assert(listed_upto(ids@, k as int, old_changed[x].id@));
                            let z = choose|z: int| 0 <= z < k && ids@[z]@ == old_changed[x].id@;
                        } else {
                            assert(changed@[x] == old_changed[x] && changed@[y] == old_changed[y]);
                        }
                    }
                    assert forall|x: int| 0 <= x < changed@.len() implies listed_upto(ids@, k + 1, (#[trigger] changed@[x]).id@) by {
                        if x < old_changed.len() {
                            assert(changed@[x] == old_changed[x]);
                            assert(listed_upto(ids@, k as int, old_changed[x].id@));
                            let z = choose|z: int| 0 <= z < k && ids@[z]@ == old_changed[x].id@;
                        } else {
                            assert(ids@[k as int]@ == changed@[x].id@);
                        }
                    }
                    assert forall|x: int| 0 <= x < changed@.len() implies entity_change_ok(before@, after@, #[trigger] changed@[x]) by {
                        if x < old_changed.len() {
                            assert(changed@[x] == old_changed[x]);
                        }
                    }
                    assert forall|x: int| 0 <= x < k + 1 && entity_present(after@, #[trigger] ids@[x]@)
                        && !same_entity_content(entity_kept(before@, ids@[x]@), entity_kept(after@, ids@[x]@))
                        implies entity_change_has(changed@, ids@[x]@) by {
                        if x < k {
                            assert(entity_change_has(old_changed, ids@[x]@));
                            let a2 = choose|a2: int| 0 <= a2 < old_changed.len() && (#[trigger] old_changed[a2]).id@ == ids@[x]@;
                            assert(changed@[a2] == old_changed[a2]);
                        } else {
                            assert(changed@[old_changed.len() as int].id@ == ids@[x]@);
                        }
                    }
                }
            }
        }
        k = k + 1;
    }
    proof {
        assert forall|i: int| 0 <= i < before@.len() && entity_present(after@, (#[trigger] before@[i]).entity.id@)
            && !same_entity_content(entity_kept(before@, before@[i].entity.id@), entity_kept(after@, before@[i].entity.id@))
            implies entity_change_has(changed@, before@[i].entity.id@) by {
            assert(id_listed(ids@, before@[i].entity.id@));
            let x = choose|x: int| 0 <= x < ids@.len() && ids@[x]@ == before@[i].entity.id@;
            assert(entity_present(after@, ids@[x]@));
        }
    }
    (added, removed, changed)
}

// ---------------------------------------------------------------------------
// Comparing relation observations
// ---------------------------------------------------------------------------
/// Whether `s` holds an observation of the relation `id`.
pub open spec fn relation_present(s: Seq<RelationObservation>, id: Seq<char>) -> bool {
    exists|i: int| 0 <= i < s.len() && (#[trigger] s[i]).relation.id@ == id
}

/// The position of the last observation of the relation `id` (the one a lookup by
/// id keeps), or -1.
pub open spec fn relation_last(s: Seq<RelationObservation>, id: Seq<char>) -> int
    decreases s.len(),
{
    if s.len() == 0 {
        -1
    } else if s.last().relation.id@ == id {
        s.len() - 1
    } else {
        relation_last(s.drop_last(), id)
    }
}

/// The last observation of the relation `id` in `s`.
pub open spec fn relation_kept(s: Seq<RelationObservation>, id: Seq<char>) -> RelationObservation {
    s[relation_last(s, id)]
}

proof fn lemma_relation_last(s: Seq<RelationObservation>, id: Seq<char>)
    ensures
        -1 <= relation_last(s, id) < s.len(),
        relation_last(s, id) >= 0 ==> s[relation_last(s, id)].relation.id@ == id,
        relation_present(s, id) ==> relation_last(s, id) >= 0,
    decreases s.len(),
{
    if s.len() > 0 {
        lemma_relation_last(s.drop_last(), id);
        if relation_present(s, id) && s.last().relation.id@ != id {
            let i = choose|i: int| 0 <= i < s.len() && (#[trigger] s[i]).relation.id@ == id;
            assert(s.drop_last()[i] == s[i]);
        }
    }
}

fn relation_last_exec(s: &[RelationObservation], id: &String) -> (r: Option<usize>)
    ensures
        match r {
            Some(i) => i == relation_last(s@, id@) && i < s@.len(),
            None => !relation_present(s@, id@),
        },
        r is Some ==> relation_present(s@, id@),
{
    let mut i: usize = s.len();
    assert(s@.take(i as int) =~= s@);
    while i > 0
        invariant
            i <= s@.len(),
            relation_last(s@, id@) == relation_last(s@.take(i as int), id@),
            forall|k: int| i <= k < s@.len() ==> (#[trigger] s@[k]).relation.id@ != id@,
        decreases i,
    {
        assert(s@.take(i as int).drop_last() =~= s@.take(i - 1));
        if s[i - 1].relation.id.0 == *id {
            assert(s@[i - 1].relation.id@ == id@);
            return Some(i - 1);
        }
        i = i - 1;
    }
    proof {
        if relation_present(s@, id@) {
            let k = choose|k: int| 0 <= k < s@.len() && (#[trigger] s@[k]).relation.id@ == id@;
        }
    }
    None
}

/// Whether `ids` is strictly increasing and names exactly the relations of `s`.
pub open spec fn relation_ids_of(ids: Seq<String>, s: Seq<RelationObservation>) -> bool {
    &&& forall|a: int, b: int| 0 <= a < b < ids.len() ==> seq_lt(#[trigger] ids[a]@, #[trigger] ids[b]@)
    &&& forall|a: int| 0 <= a < ids.len() ==> relation_present(s, #[trigger] ids[a]@)
    &&& forall|i: int| 0 <= i < s.len() ==> #[trigger] id_listed(ids, s[i].relation.id@)
}

/// The distinct ids of `s`, in increasing order.
#[verifier::rlimit(30)]
fn relation_sorted_ids(s: &[RelationObservation]) -> (ids: Vec<String>)
    ensures
        relation_ids_of(ids@, s@),
{
    let mut ids: Vec<String> = Vec::new();
    let mut i: usize = 0;
    while i < s.len()
        invariant
            i <= s@.len(),
            relation_ids_of(ids@, s@.take(i as int)),
            forall|a: int| 0 <= a < ids@.len() ==> relation_present(s@, #[trigger] ids@[a]@),
        decreases s@.len() - i,
    {
        let key = chars_of(s[i].relation.id.0.as_str());
        let mut p: usize = 0;
        let mut state: u8 = 0;
        while p < ids.len() && state == 0
            invariant
                p <= ids@.len(),
                state <= 2,
                forall|q: int| 0 <= q < p ==> seq_lt(#[trigger] ids@[q]@, key@),
                state == 1 ==> p < ids@.len() && seq_lt(key@, ids@[p as int]@),
                state == 2 ==> p < ids@.len() && ids@[p as int]@ == key@,
            decreases 2 * (ids@.len() - p) + if state == 0 {
                1int
            } else {
                0int
            },
        {
            let c = compare_chars(&chars_of(ids[p].as_str()), &key);
            if c > 0 {
                state = 1;
            } else if c == 0 {
                state = 2;
            } else {
                p = p + 1;
            }
        }
        let ghost old_ids = ids@;
        let ghost t = s@.take(i + 1);
        assert(s@.take(i as int) =~= t.drop_last());
        if state != 2 {
            ids.insert(p, string_of(&key));
            proof {
                assert forall|a: int, b: int| 0 <= a < b < ids@.len() implies seq_lt(#[trigger] ids@[a]@, #[trigger] ids@[b]@) by {
                    if a < p && b < p {
                        assert(ids@[a] == old_ids[a] && ids@[b] == old_ids[b]);
                    } else if a < p && b == p {
                        assert(ids@[a] == old_ids[a]);
                    } else if a < p {
                        assert(ids@[a] == old_ids[a] && ids@[b] == old_ids[b - 1]);
                    } else if a == p {
                        assert(ids@[b] == old_ids[b - 1]);
                        if b - 1 > p {
                            lemma_seq_lt_transitive(key@, old_ids[p as int]@, old_ids[b - 1]@);
                        }
                    } else {
                        assert(ids@[a] == old_ids[a - 1] && ids@[b] == old_ids[b - 1]);
                    }
                }
                assert forall|a: int| 0 <= a < ids@.len() implies relation_present(s@, #[trigger] ids@[a]@) by {
                    if a < p {
                        assert(ids@[a] == old_ids[a]);
                    } else if a == p {
                        assert(s@[i as int].relation.id@ == key@);
                    } else {
                        assert(ids@[a] == old_ids[a - 1]);
                    }
                }
                assert forall|a: int| 0 <= a < ids@.len() implies relation_present(t, #[trigger] ids@[a]@) by {
                    if a < p {
                        assert(ids@[a] == old_ids[a]);
                        assert(relation_present(t.drop_last(), old_ids[a]@));
                        let j = choose|j: int| 0 <= j < t.drop_last().len() && (#[trigger] t.drop_last()[j]).relation.id@ == old_ids[a]@;
                        assert(t[j] == t.drop_last()[j]);
                    } else if a == p {
                        assert(t[i as int].relation.id@ == key@);
                    } else {
                        assert(ids@[a] == old_ids[a - 1]);
                        assert(relation_present(t.drop_last(), old_ids[a - 1]@));
                        let j = choose|j: int| 0 <= j < t.drop_last().len() && (#[trigger] t.drop_last()[j]).relation.id@ == old_ids[a - 1]@;
                        assert(t[j] == t.drop_last()[j]);
                    }
                }
                assert forall|k: int| 0 <= k < t.len() implies #[trigger] id_listed(ids@, t[k].relation.id@) by {
                    if k < i {
                        assert(t[k] == t.drop_last()[k]);
                        assert(id_listed(old_ids, t.drop_last()[k].relation.id@));
                        let x = choose|x: int| 0 <= x < old_ids.len() && old_ids[x]@ == t[k].relation.id@;
                        if x < p {
                            assert(ids@[x] == old_ids[x]);
                        } else {
                            assert(ids@[x + 1] == old_ids[x]);
                        }
                    } else {
                        assert(ids@[p as int]@ == key@);
                    }
                }
            }
        } else {
            proof {
                assert forall|a: int| 0 <= a < ids@.len() implies relation_present(t, #[trigger] ids@[a]@) by {
                    assert(relation_present(t.drop_last(), ids@[a]@));
                    let j = choose|j: int| 0 <= j < t.drop_last().len() && (#[trigger] t.drop_last()[j]).relation.id@ == ids@[a]@;
                    assert(t[j] == t.drop_last()[j]);
                }
                assert forall|k: int| 0 <= k < t.len() implies #[trigger] id_listed(ids@, t[k].relation.id@) by {
                    if k < i {
                        assert(t[k] == t.drop_last()[k]);
                        assert(id_listed(ids@, t.drop_last()[k].relation.id@));
                    } else {
                        assert(ids@[p as int]@ == key@);
                    }
                }
            }
        }
        i = i + 1;
    }
    assert(s@.take(i as int) =~= s@);
    ids
}

/// Whether some observation of `out` is of the relation `id`.
pub open spec fn relation_has(out: Seq<RelationObservation>, id: Seq<char>) -> bool {
    exists|a: int| 0 <= a < out.len() && (#[trigger] out[a]).relation.id@ == id
}

/// Whether some change of `changed` is of the relation `id`.
pub open spec fn relation_change_has(changed: Seq<RelationChange>, id: Seq<char>) -> bool {
    exists|a: int| 0 <= a < changed.len() && (#[trigger] changed[a]).id@ == id
}

/// `out` holds the last observation in `s`, by increasing id, of each relation
/// that `other` lacks.
pub open spec fn relation_added(other: Seq<RelationObservation>, s: Seq<RelationObservation>, out: Seq<RelationObservation>) -> bool {
    &&& forall|a: int, b: int| 0 <= a < b < out.len() ==> seq_lt((#[trigger] out[a]).relation.id@, (#[trigger] out[b]).relation.id@)
    &&& forall|a: int| 0 <= a < out.len() ==> relation_present(s, (#[trigger] out[a]).relation.id@)
        && !relation_present(other, out[a].relation.id@) && same_relation_observation(out[a], relation_kept(s, out[a].relation.id@))
    &&& forall|i: int| 0 <= i < s.len() && !relation_present(other, (#[trigger] s[i]).relation.id@) ==> relation_has(out, s[i].relation.id@)
}

/// The relations both sides hold whose last observations say different things,
/// by increasing id, with both observations.
pub open spec fn relation_changed(before: Seq<RelationObservation>, after: Seq<RelationObservation>, changed: Seq<RelationChange>) -> bool {
    &&& forall|a: int, b: int| 0 <= a < b < changed.len() ==> seq_lt((#[trigger] changed[a]).id@, (#[trigger] changed[b]).id@)
    &&& forall|a: int| 0 <= a < changed.len() ==> relation_change_ok(before, after, #[trigger] changed[a])
    &&& forall|i: int| 0 <= i < before.len() && relation_present(after, (#[trigger] before[i]).relation.id@)
        && !same_relation_content(relation_kept(before, before[i].relation.id@), relation_kept(after, before[i].relation.id@))
        ==> relation_change_has(changed, before[i].relation.id@)
}

/// `c` reports a relation both sides hold and describe differently.
pub open spec fn relation_change_ok(before: Seq<RelationObservation>, after: Seq<RelationObservation>, c: RelationChange) -> bool {
    &&& relation_present(after, c.id@)
    &&& relation_present(before, c.id@)
    &&& !same_relation_content(relation_kept(before, c.id@), relation_kept(after, c.id@))
    &&& same_relation_observation(c.before, relation_kept(before, c.id@))
    &&& same_relation_observation(c.after, relation_kept(after, c.id@))
}

/// The last observations of the relations that `other` lacks, by increasing id.
#[verifier::rlimit(60)]
fn relation_only_in(other: &[RelationObservation], s: &[RelationObservation]) -> (r: Vec<RelationObservation>)
    requires
        forall|i: int| 0 <= i < s@.len() ==> (#[trigger] s@[i]).wf(),
    ensures
        relation_added(other@, s@, r@),
{
    let ids = relation_sorted_ids(s);
    let mut out: Vec<RelationObservation> = Vec::new();
    let mut k: usize = 0;
    while k < ids.len()
        invariant
            k <= ids@.len(),
            relation_ids_of(ids@, s@),
            forall|a: int| 0 <= a < out@.len() ==> listed_upto(ids@, k as int, (#[trigger] out@[a]).relation.id@),
            forall|a: int, b: int| 0 <= a < b < out@.len() ==> seq_lt((#[trigger] out@[a]).relation.id@, (#[trigger] out@[b]).relation.id@),
            forall|a: int| 0 <= a < out@.len() ==> relation_present(s@, (#[trigger] out@[a]).relation.id@)
                && !relation_present(other@, out@[a].relation.id@) && same_relation_observation(out@[a], relation_kept(s@, out@[a].relation.id@)),
            forall|x: int| 0 <= x < k && !relation_present(other@, #[trigger] ids@[x]@) ==> relation_has(out@, ids@[x]@),
        decreases ids@.len() - k,
    {
        let id = &ids[k];
        proof {
            lemma_relation_last(s@, id@);
        }
        if relation_last_exec(other, id).is_none() {
            let i = match relation_last_exec(s, id) {
                Some(i) => i,
                None => {
                    assert(false);
                    0
                },
            };
            let ghost old_out = out@;
            out.push(s[i].copy());
            proof {
                assert(s@[i as int].relation.id@ == id@);
                assert forall|x: int, y: int| 0 <= x < y < out@.len() implies seq_lt((#[trigger] out@[x]).relation.id@, (#[trigger] out@[y]).relation.id@) by {
                    if y == old_out.len() {
                        assert(out@[x] == old_out[x]);
                        assert(listed_upto(ids@, k as int, old_out[x].relation.id@));
                        let z = choose|z: int| 0 <= z < k && ids@[z]@ == old_out[x].relation.id@;
                    } else {
                        assert(out@[x] == old_out[x] && out@[y] == old_out[y]);
                    }
                }
                assert forall|x: int| 0 <= x < out@.len() implies listed_upto(ids@, k + 1, (#[trigger] out@[x]).relation.id@) by {
                    if x < old_out.len() {
                        assert(out@[x] == old_out[x]);
                        assert(listed_upto(ids@, k as int, old_out[x].relation.id@));
                        let z = choose|z: int| 0 <= z < k && ids@[z]@ == old_out[x].relation.id@;
                    } else {
                        assert(ids@[k as int]@ == out@[x].relation.id@);
                    }
                }
                assert forall|x: int| 0 <= x < k + 1 && !relation_present(other@, #[trigger] ids@[x]@) implies relation_has(out@, ids@[x]@) by {
                    if x < k {
                        assert(relation_has(old_out, ids@[x]@));
                        let a = choose|a: int| 0 <= a < old_out.len() && (#[trigger] old_out[a]).relation.id@ == ids@[x]@;
                        assert(out@[a] == old_out[a]);
                    } else {
                        assert(out@[old_out.len() as int].relation.id@ == ids@[x]@);
                    }
                }
                assert forall|a: int| 0 <= a < out@.len() implies relation_present(s@, (#[trigger] out@[a]).relation.id@)
                    && !relation_present(other@, out@[a].relation.id@) && same_relation_observation(out@[a], relation_kept(s@, out@[a].relation.id@)) by {
                    if a < old_out.len() {
                        assert(out@[a] == old_out[a]);
                    }
                }
            }
        }
        k = k + 1;
    }
    proof {
        assert forall|i: int| 0 <= i < s@.len() && !relation_present(other@, (#[trigger] s@[i]).relation.id@) implies relation_has(out@, s@[i].relation.id@) by {
            assert(id_listed(ids@, s@[i].relation.id@));
            let x = choose|x: int| 0 <= x < ids@.len() && ids@[x]@ == s@[i].relation.id@;
            assert(!relation_present(other@, ids@[x]@));
        }
    }
    out
}

/// Compares the relation observations of two snapshots by id: what only the
/// second has, what only the first has, and what both have but describe
/// differently.
#[verifier::rlimit(60)]
pub fn diff_relations(before: &[RelationObservation], after: &[RelationObservation]) -> (r: (Vec<RelationObservation>, Vec<RelationObservation>, Vec<RelationChange>))
    requires
        forall|i: int| 0 <= i < before@.len() ==> (#[trigger] before@[i]).wf(),
        forall|i: int| 0 <= i < after@.len() ==> (#[trigger] after@[i]).wf(),
    ensures
        relation_added(before@, after@, r.0@),
        relation_added(after@, before@, r.1@),
        relation_changed(before@, after@, r.2@),
{
    let added = relation_only_in(before, after);
    let removed = relation_only_in(after, before);
    let ids = relation_sorted_ids(before);
    let mut changed: Vec<RelationChange> = Vec::new();
    let mut k: usize = 0;
    while k < ids.len()
        invariant
            k <= ids@.len(),
            forall|i: int| 0 <= i < before@.len() ==> (#[trigger] before@[i]).wf(),
            forall|i: int| 0 <= i < after@.len() ==> (#[trigger] after@[i]).wf(),
            relation_ids_of(ids@, before@),
            forall|a: int| 0 <= a < changed@.len() ==> listed_upto(ids@, k as int, (#[trigger] changed@[a]).id@),
            forall|a: int, b: int| 0 <= a < b < changed@.len() ==> seq_lt((#[trigger] changed@[a]).id@, (#[trigger] changed@[b]).id@),
            forall|a: int| 0 <= a < changed@.len() ==> relation_change_ok(before@, after@, #[trigger] changed@[a]),
            forall|x: int| 0 <= x < k && relation_present(after@, #[trigger] ids@[x]@)
                && !same_relation_content(relation_kept(before@, ids@[x]@), relation_kept(after@, ids@[x]@))
                ==> relation_change_has(changed@, ids@[x]@),
        decreases ids@.len() - k,
    {
        let id = &ids[k];
        proof {
            lemma_relation_last(before@, id@);
            lemma_relation_last(after@, id@);
        }
        let b = match relation_last_exec(before, id) {
            Some(b) => b,
            None => {
                assert(false);
                0
            },
        };
        if let Some(a) = relation_last_exec(after, id) {
            if !relation_content_equal(&before[b], &after[a]) {
                let ghost old_changed = changed@;
                let c = RelationChange { id: RelationId(id.clone()), before: before[b].copy(), after: after[a].copy() };
                assert(relation_change_ok(before@, after@, c));
                changed.push(c);
                proof {
                    assert forall|x: int, y: int| 0 <= x < y < changed@.len() implies seq_lt((#[trigger] changed@[x]).id@, (#[trigger] changed@[y]).id@) by {
                        if y == old_changed.len() {
                            assert(changed@[x] == old_changed[x]);
                            assert(listed_upto(ids@, k as int, old_changed[x].id@));
                            let z = choose|z: int| 0 <= z < k && ids@[z]@ == old_changed[x].id@;
                        } else {
                            assert(changed@[x] == old_changed[x] && changed@[y] == old_changed[y]);
                        }
                    }
                    assert forall|x: int| 0 <= x < changed@.len() implies listed_upto(ids@, k + 1, (#[trigger] changed@[x]).id@) by {
                        if x < old_changed.len() {
                            assert(changed@[x] == old_changed[x]);
                            assert(listed_upto(ids@, k as int, old_changed[x].id@));
                            let z = choose|z: int| 0 <= z < k && ids@[z]@ == old_changed[x].id@;
                        } else {
                            assert(ids@[k as int]@ == changed@[x].id@);
                        }
                    }
                    assert forall|x: int| 0 <= x < changed@.len() implies relation_change_ok(before@, after@, #[trigger] changed@[x]) by {
                        if x < old_changed.len() {
                            assert(changed@[x] == old_changed[x]);
                        }
                    }
                    assert forall|x: int| 0 <= x < k + 1 && relation_present(after@, #[trigger] ids@[x]@)
                        && !same_relation_content(relation_kept(before@, ids@[x]@), relation_kept(after@, ids@[x]@))
                        implies relation_change_has(changed@, ids@[x]@) by {
                        if x < k {
                            assert(relation_change_has(old_changed, ids@[x]@));
                            let a2 = choose|a2: int| 0 <= a2 < old_changed.len() && (#[trigger] old_changed[a2]).id@ == ids@[x]@;
                            assert(changed@[a2] == old_changed[a2]);
                        } else {
                            assert(changed@[old_changed.len() as int].id@ == ids@[x]@);
                        }
                    }
                }
            }
        }
        k = k + 1;
    }
    proof {
        assert forall|i: int| 0 <= i < before@.len() && relation_present(after@, (#[trigger] before@[i]).relation.id@)
            && !same_relation_content(relation_kept(before@, before@[i].relation.id@), relation_kept(after@, before@[i].relation.id@))
            implies relation_change_has(changed@, before@[i].relation.id@) by {
            assert(id_listed(ids@, before@[i].relation.id@));
            let x = choose|x: int| 0 <= x < ids@.len() && ids@[x]@ == before@[i].relation.id@;
            assert(relation_present(after@, ids@[x]@));
        }
    }
    (added, removed, changed)
}


// ---------------------------------------------------------------------------
// Answering from a store
// ---------------------------------------------------------------------------
/// A store's answer taken as a query's: a store failure is a query failure.
pub fn from_store<T>(read: Result<T, StoreError>) -> (r: Result<T, QueryError>)
    ensures
        match read {
            Ok(v) => r == Ok::<T, QueryError>(v),
            Err(e) => r == Err::<T, QueryError>(QueryError::Store(e)),
        },
{
    match read {
        Ok(v) => Ok(v),
        Err(e) => Err(QueryError::Store(e)),
    }
}

/// A diff compares two versions of one world only; it is refused before
/// anything is read otherwise.
pub fn same_world(from: &SnapshotId, to: &SnapshotId) -> (r: Result<(), QueryError>)
    ensures
        r is Ok <==> from.world@ == to.world@,
        r matches Err(e) ==> e is DifferentWorlds,
{
    if from.world.0 == to.world.0 {
        Ok(())
    } else {
        Err(QueryError::DifferentWorlds)
    }
}

/// How far a walk over a stored snapshot has come.
pub enum WalkStage {
    /// Nothing has been read yet.
    Start,
    /// The snapshot's entities were read, and the root is among them.
    Entities(Vec<EntityObservation>),
}

/// What the host hands back after doing what the walk asked.
pub enum WalkEvent {
    /// Nothing was read: the walk begins.
    Begin,
    EntitiesRead(Result<Vec<EntityObservation>, StoreError>),
    RelationsRead(Result<Vec<RelationObservation>, StoreError>),
}

/// What a walk over a stored snapshot asks of the host next.
pub enum WalkAction {
    ReadEntities,
    ReadRelations,
    /// Both reads are done: walk these entities and relations.
    Walk(Vec<EntityObservation>, Vec<RelationObservation>),
    Fail(QueryError),
}

/// The step a walk from `root`, bounded to `max_nodes` entities, takes on
/// an event: the node bound is checked before anything is read, the root
/// before the relations are read, and a failed read ends the walk with the
/// store's error. An event that does not fit the stage begins the walk anew.
pub open spec fn walk_next(root: Seq<char>, max_nodes: usize, stage: WalkStage, event: WalkEvent, r: (WalkStage, WalkAction)) -> bool {
    let begin = if max_nodes == 0 {
        r.1 matches WalkAction::Fail(QueryError::InvalidNodeLimit)
    } else {
        r.0 is Start && r.1 is ReadEntities
    };
    match (stage, event) {
        (WalkStage::Start, WalkEvent::EntitiesRead(Err(e))) => r.1 == WalkAction::Fail(QueryError::Store(e)),
        (WalkStage::Start, WalkEvent::EntitiesRead(Ok(es))) => if max_nodes == 0 {
            r.1 matches WalkAction::Fail(QueryError::InvalidNodeLimit)
        } else if !present(es@, root) {
            r.1 matches WalkAction::Fail(QueryError::EntityNotFound { entity }) && entity@ == root
        } else {
            r.0 == WalkStage::Entities(es) && r.1 is ReadRelations
        },
        (WalkStage::Entities(es), WalkEvent::RelationsRead(Err(e))) => r.1 == WalkAction::Fail(QueryError::Store(e)),
        (WalkStage::Entities(es), WalkEvent::RelationsRead(Ok(rs))) => r.1 == WalkAction::Walk(es, rs),
        _ => begin,
    }
}

/// Decides the next step of a walk over a stored snapshot (see `walk_next`).
pub fn walk_step(root: &EntityId, max_nodes: usize, stage: WalkStage, event: WalkEvent) -> (r: (WalkStage, WalkAction))
    ensures
        walk_next(root@, max_nodes, stage, event, r),
{
    match stage {
        WalkStage::Start => match event {
            WalkEvent::EntitiesRead(Err(e)) => (WalkStage::Start, WalkAction::Fail(QueryError::Store(e))),
            WalkEvent::EntitiesRead(Ok(es)) => {
                if max_nodes == 0 {
                    (WalkStage::Start, WalkAction::Fail(QueryError::InvalidNodeLimit))
                } else if !present_exec(&es, root) {
                    (WalkStage::Start, WalkAction::Fail(QueryError::EntityNotFound { entity: root.duplicate() }))
                } else {
                    (WalkStage::Entities(es), WalkAction::ReadRelations)
                }
            },
            _ => walk_begin(max_nodes),
        },
        WalkStage::Entities(es) => match event {
            WalkEvent::RelationsRead(Err(e)) => (WalkStage::Start, WalkAction::Fail(QueryError::Store(e))),
            WalkEvent::RelationsRead(Ok(rs)) => (WalkStage::Start, WalkAction::Walk(es, rs)),
            _ => walk_begin(max_nodes),
        },
    }
}

fn walk_begin(max_nodes: usize) -> (r: (WalkStage, WalkAction))
    ensures
        max_nodes == 0 ==> r.1 matches WalkAction::Fail(QueryError::InvalidNodeLimit),
        max_nodes != 0 ==> r.0 is Start && r.1 is ReadEntities,
{
    if max_nodes == 0 {
        (WalkStage::Start, WalkAction::Fail(QueryError::InvalidNodeLimit))
    } else {
        (WalkStage::Start, WalkAction::ReadEntities)
    }
}

/// A walk over a store whose reads succeed answers what `traverse` answers
/// on what was read: the steps refuse a zero node bound and a missing root
/// with the error `traverse` reports for them, and otherwise hand over the
/// entities and relations unchanged, on which `traverse` succeeds.
pub proof fn law_stored_walk_answers_as_traverse(
    snapshot: SnapshotId,
    request: RequestView,
    entities: Vec<EntityObservation>,
    relations: Vec<RelationObservation>,
    s1: (WalkStage, WalkAction),
    s2: (WalkStage, WalkAction),
    s3: (WalkStage, WalkAction),
    answer: Result<GraphTraversal, QueryError>,
)
    requires
        walk_next(request.root, request.max_nodes, WalkStage::Start, WalkEvent::Begin, s1),
        s1.1 is ReadEntities ==> walk_next(request.root, request.max_nodes, s1.0, WalkEvent::EntitiesRead(Ok(entities)), s2),
        s1.1 is ReadEntities && s2.1 is ReadRelations ==> walk_next(request.root, request.max_nodes, s2.0, WalkEvent::RelationsRead(Ok(relations)), s3),
        traversal_answer(snapshot, entities@, relations@, request, answer),
    ensures
        s1.1 matches WalkAction::Fail(e) ==> answer == Err::<GraphTraversal, QueryError>(e),
        s1.1 is ReadEntities ==> (s2.1 matches WalkAction::Fail(e) ==> answer matches Err(a) && query_error_message(a) == query_error_message(e)),
        s1.1 is ReadEntities && s2.1 is ReadRelations ==> s3.1 == WalkAction::Walk(entities, relations) && answer is Ok,
{
}

/// What changed between two versions of one world.
#[derive(Debug, Clone, PartialEq)]
pub struct SnapshotDiff {
    pub schema_version: u32,
    pub from: SnapshotId,
    pub to: SnapshotId,
    pub added_entities: Vec<EntityObservation>,
    pub removed_entities: Vec<EntityObservation>,
    pub changed_entities: Vec<EntityChange>,
    pub added_relations: Vec<RelationObservation>,
    pub removed_relations: Vec<RelationObservation>,
    pub changed_relations: Vec<RelationChange>,
}

/// Compares the content of two versions of one world, given what each
/// snapshot holds; snapshot identity itself is not content.
pub fn diff(
    from: &SnapshotId,
    to: &SnapshotId,
    before_entities: &[EntityObservation],
    after_entities: &[EntityObservation],
    before_relations: &[RelationObservation],
    after_relations: &[RelationObservation],
) -> (r: Result<SnapshotDiff, QueryError>)
    requires
        forall|i: int| 0 <= i < before_entities@.len() ==> (#[trigger] before_entities@[i]).wf(),
        forall|i: int| 0 <= i < after_entities@.len() ==> (#[trigger] after_entities@[i]).wf(),
        forall|i: int| 0 <= i < before_relations@.len() ==> (#[trigger] before_relations@[i]).wf(),
        forall|i: int| 0 <= i < after_relations@.len() ==> (#[trigger] after_relations@[i]).wf(),
    ensures
        from.world@ != to.world@ ==> r matches Err(QueryError::DifferentWorlds),
        from.world@ == to.world@ ==> (r matches Ok(d) && {
            &&& d.schema_version == QUERY_SCHEMA_VERSION
            &&& d.from.world@ == from.world@ && d.from.version@ == from.version@
            &&& d.to.world@ == to.world@ && d.to.version@ == to.version@
            &&& entity_added(before_entities@, after_entities@, d.added_entities@)
            &&& entity_added(after_entities@, before_entities@, d.removed_entities@)
            &&& entity_changed(before_entities@, after_entities@, d.changed_entities@)
            &&& relation_added(before_relations@, after_relations@, d.added_relations@)
            &&& relation_added(after_relations@, before_relations@, d.removed_relations@)
            &&& relation_changed(before_relations@, after_relations@, d.changed_relations@)
        }),
{
    if from.world.0 != to.world.0 {
        return Err(QueryError::DifferentWorlds);
    }
    let (added_entities, removed_entities, changed_entities) = diff_entities(before_entities, after_entities);
    let (added_relations, removed_relations, changed_relations) = diff_relations(before_relations, after_relations);
    Ok(SnapshotDiff {
        schema_version: QUERY_SCHEMA_VERSION,
        from: from.duplicate(),
        to: to.duplicate(),
        added_entities,
        removed_entities,
        changed_entities,
        added_relations,
        removed_relations,
        changed_relations,
    })
}

/// Two versions that hold the same entities, each saying the same thing
/// whatever snapshot observed it, differ in nothing.
pub proof fn law_diff_of_same_content(
    before: Seq<EntityObservation>,
    after: Seq<EntityObservation>,
    added: Seq<EntityObservation>,
    removed: Seq<EntityObservation>,
    changed: Seq<EntityChange>,
)
    requires
        entity_added(before, after, added),
        entity_added(after, before, removed),
        entity_changed(before, after, changed),
        forall|id: Seq<char>| entity_present(before, id) <==> entity_present(after, id),
        forall|id: Seq<char>| entity_present(before, id) ==> same_entity_content(entity_kept(before, id), entity_kept(after, id)),
    ensures
        added.len() == 0,
        removed.len() == 0,
        changed.len() == 0,
{
    if added.len() > 0 {
        assert(entity_present(after, added[0].entity.id@));
    }
    if removed.len() > 0 {
        assert(entity_present(before, removed[0].entity.id@));
    }
    if changed.len() > 0 {
        assert(entity_change_ok(before, after, changed[0]));
    }
}

/// Two versions that hold the same relations, each saying the same thing
/// whatever snapshot observed it, differ in no relation.
pub proof fn law_relation_diff_of_same_content(
    before: Seq<RelationObservation>,
    after: Seq<RelationObservation>,
    added: Seq<RelationObservation>,
    removed: Seq<RelationObservation>,
    changed: Seq<RelationChange>,
)
    requires
        relation_added(before, after, added),
        relation_added(after, before, removed),
        relation_changed(before, after, changed),
        forall|id: Seq<char>| relation_present(before, id) <==> relation_present(after, id),
        forall|id: Seq<char>| relation_present(before, id) ==> same_relation_content(relation_kept(before, id), relation_kept(after, id)),
    ensures
        added.len() == 0,
        removed.len() == 0,
        changed.len() == 0,
{
    if added.len() > 0 {
        assert(relation_present(after, added[0].relation.id@));
    }
    if removed.len() > 0 {
        assert(relation_present(before, removed[0].relation.id@));
    }
    if changed.len() > 0 {
        assert(relation_change_ok(before, after, changed[0]));
    }
}

} // verus!
