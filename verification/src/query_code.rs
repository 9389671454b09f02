//! Code-world questions over snapshots: finding code entities, the narrowest
//! entity at a source line, what a change can affect, and why entities lack
//! complete AVEC output.
use vstd::prelude::*;

use crate::identity::{EntityId, SnapshotId};
use crate::kernel::{
    AttributeValue, AttributeView, Attributes, EntityObservation, RelationObservation,
    attribute_pairs, same_observation, text_value, u32_value, lemma_same_observation_symmetric,
    lemma_same_observation_transitive,
};
use crate::maps::{keys_distinct, seq_map};
use crate::query::{
    EntityFilter, GraphRequest, GraphTraversal, QueryError, QUERY_SCHEMA_VERSION, TraversedEntity,
    find_entities, full_walk, limited, matching, entity_matches, present, same_observations, traverse,
    same_ignoring_ascii_case, lowercase, RequestView, traversal_answer, law_traversal_bounded,
    in_nodes, from_found, node_for, last_index, eq_ignore_ascii_case,
};
use crate::model_code::CODE_MODEL_ID;
use crate::store::RelationDirection;
use crate::text::{
    chars_of, compare_chars, contains_seq, seq_lt, lemma_seq_lt_asymmetric, lemma_seq_lt_irreflexive, lemma_seq_lt_transitive,
};

verus! {

/// Code-domain conveniences for finding entities.
#[derive(Debug, Clone, PartialEq, Eq)]
pub struct CodeEntityFilter {
    pub path: Option<String>,
    pub name_contains: Option<String>,
    pub kind: Option<String>,
    pub language: Option<String>,
    pub limit: Option<usize>,
}

/// What changing one code entity can affect.
#[derive(Debug, Clone, PartialEq)]
pub struct CodeImpact {
    pub schema_version: u32,
    pub snapshot: SnapshotId,
    pub target: EntityObservation,
    pub direct_dependents: usize,
    pub transitive_dependents: usize,
    pub graph: GraphTraversal,
}

/// The facts about a code entity that a report shows.
#[derive(Debug, Clone, PartialEq)]
pub struct CodeEntitySummary {
    pub id: EntityId,
    pub label: String,
    pub kind: String,
    pub path: Option<String>,
    pub line_start: Option<u32>,
    pub line_end: Option<u32>,
}

/// The AVEC inputs and scores one entity lacks.
#[derive(Debug, Clone, PartialEq)]
pub struct EntityAnalysisGap {
    pub entity: CodeEntitySummary,
    pub missing_measurements: Vec<String>,
    pub missing_scores: Vec<String>,
}

/// Why code entities of a snapshot cannot yet receive complete AVEC output;
/// `metadata` is what the store records of the snapshot.
#[derive(Debug, Clone, PartialEq)]
pub struct AnalysisGapReport<M> {
    pub schema_version: u32,
    pub snapshot: SnapshotId,
    pub metadata: Option<M>,
    pub scoreable_entities: usize,
    pub fully_scored_entities: usize,
    pub gaps: Vec<EntityAnalysisGap>,
}

/// The measurements AVEC scoring reads.
pub open spec fn avec_required_measurements() -> Seq<Seq<char>> {
    seq![
        "code.lines_of_code"@,
        "code.cyclomatic_complexity"@,
        "code.parameters"@,
        "graph.incoming_edges"@,
        "graph.outgoing_edges"@,
        "git.total_commits"@,
        "git.contributors"@,
        "git.average_days_between_changes"@,
        "test.line_coverage"@,
        "test.branch_coverage"@,
    ]
}

/// The dimensions AVEC scores.
pub open spec fn avec_score_dimensions() -> Seq<Seq<char>> {
    seq!["stability"@, "logic"@, "friction"@, "autonomy"@]
}

/// The measurements AVEC scoring reads.
pub fn avec_required_measurements_list() -> (v: Vec<&'static str>)
    ensures
        v@.map_values(|s: &str| s@) == avec_required_measurements(),
{
    let v = vec![
        "code.lines_of_code",
        "code.cyclomatic_complexity",
        "code.parameters",
        "graph.incoming_edges",
        "graph.outgoing_edges",
        "git.total_commits",
        "git.contributors",
        "git.average_days_between_changes",
        "test.line_coverage",
        "test.branch_coverage",
    ];
    assert(v@.map_values(|s: &str| s@) =~= avec_required_measurements());
    v
}

/// The dimensions AVEC scores.
pub fn avec_score_dimensions_list() -> (v: Vec<&'static str>)
    ensures
        v@.map_values(|s: &str| s@) == avec_score_dimensions(),
{
    let v = vec!["stability", "logic", "friction", "autonomy"];
    assert(v@.map_values(|s: &str| s@) =~= avec_score_dimensions());
    v
}

/// The relation kinds along which a change propagates to dependents.
pub open spec fn impact_kinds() -> Seq<Seq<char>> {
    seq!["calls"@, "references"@, "imports"@, "implements"@, "inherits"@]
}

pub fn impact_relation_kinds() -> (v: Vec<String>)
    ensures
        v@.map_values(|s: String| s@) == impact_kinds(),
{
    let v = vec![
        "calls".to_owned(),
        "references".to_owned(),
        "imports".to_owned(),
        "implements".to_owned(),
        "inherits".to_owned(),
    ];
    assert(v@.map_values(|s: String| s@) =~= impact_kinds());
    v
}

/// The attributes a code filter asks for: the path and the language, when given.
pub open spec fn code_filter_attributes(f: CodeEntityFilter) -> Map<Seq<char>, AttributeView> {
    let m = match f.path {
        Some(p) => Map::empty().insert("file_path"@, AttributeView::Text(p@)),
        None => Map::empty(),
    };
    match f.language {
        Some(l) => m.insert("language"@, AttributeView::Text(l@)),
        None => m,
    }
}

/// The generic filter a code filter stands for.
pub fn code_filter(filter: &CodeEntityFilter) -> (r: EntityFilter)
    ensures
        r.attributes.wf(),
        r.attributes@ == code_filter_attributes(*filter),
        r.model matches Some(m) && m@ == CODE_MODEL_ID@,
        r.kind == filter.kind,
        r.label_contains == filter.name_contains,
        r.limit == filter.limit,
{
    let mut entries: Vec<(String, AttributeValue)> = Vec::new();
    let ghost mut m = Map::<Seq<char>, AttributeView>::empty();
    if let Some(path) = &filter.path {
        entries.push(("file_path".to_owned(), AttributeValue::Text(path.clone())));
    }
    if let Some(language) = &filter.language {
        entries.push(("language".to_owned(), AttributeValue::Text(language.clone())));
    }
    proof {
        reveal_strlit("file_path");
        reveal_strlit("language");
        let pairs = attribute_pairs(entries@);
        assert("file_path"@.len() == 9 && "language"@.len() == 8);
        assert("file_path"@ != "language"@);
        match (&filter.path, &filter.language) {
            (Some(p), Some(l)) => {
                assert(pairs =~= seq![("file_path"@, AttributeView::Text(p@)), ("language"@, AttributeView::Text(l@))]);
                assert(pairs.drop_last() =~= seq![("file_path"@, AttributeView::Text(p@))]);
                assert(pairs.drop_last().drop_last() =~= Seq::<(Seq<char>, AttributeView)>::empty());
            },
            (Some(p), None) => {
                assert(pairs =~= seq![("file_path"@, AttributeView::Text(p@))]);
                assert(pairs.drop_last() =~= Seq::<(Seq<char>, AttributeView)>::empty());
            },
            (None, Some(l)) => {
                assert(pairs =~= seq![("language"@, AttributeView::Text(l@))]);
                assert(pairs.drop_last() =~= Seq::<(Seq<char>, AttributeView)>::empty());
            },
            (None, None) => {
                assert(pairs =~= Seq::<(Seq<char>, AttributeView)>::empty());
            },
        }
        reveal_with_fuel(seq_map, 3);
        assert(seq_map(pairs) =~= code_filter_attributes(*filter));
    }
    EntityFilter {
        model: Some(CODE_MODEL_ID.to_owned()),
        kind: match &filter.kind {
            Some(k) => Some(k.clone()),
            None => None,
        },
        label_contains: match &filter.name_contains {
            Some(k) => Some(k.clone()),
            None => None,
        },
        attributes: Attributes { entries },
        limit: filter.limit,
    }
}

/// Whether a code entity satisfies every part of a code filter.
pub open spec fn code_entity_matches(o: EntityObservation, f: CodeEntityFilter) -> bool {
    &&& same_ignoring_ascii_case(o.entity.model@, CODE_MODEL_ID@)
    &&& (f.kind matches Some(k) ==> same_ignoring_ascii_case(o.entity.kind@, k@))
    &&& (f.name_contains matches Some(l) ==> contains_seq(lowercase(o.entity.label@), lowercase(l@)))
    &&& (f.path matches Some(p) ==> o.attributes.get_spec("file_path"@) == Some(AttributeView::Text(p@)))
    &&& (f.language matches Some(l) ==> o.attributes.get_spec("language"@) == Some(AttributeView::Text(l@)))
}

/// The entities of `s` that satisfy the code filter `f`, in order.
pub open spec fn code_matching(s: Seq<EntityObservation>, f: CodeEntityFilter) -> Seq<EntityObservation>
    decreases s.len(),
{
    if s.len() == 0 {
        s
    } else if code_entity_matches(s.last(), f) {
        code_matching(s.drop_last(), f).push(s.last())
    } else {
        code_matching(s.drop_last(), f)
    }
}

proof fn lemma_code_matching(s: Seq<EntityObservation>, f: CodeEntityFilter, g: EntityFilter)
    requires
        g.attributes@ == code_filter_attributes(f),
        g.model matches Some(m) && m@ == CODE_MODEL_ID@,
        g.kind == f.kind,
        g.label_contains == f.name_contains,
    ensures
        matching(s, g) == code_matching(s, f),
    decreases s.len(),
{
    if s.len() > 0 {
        lemma_code_matching(s.drop_last(), f, g);
        let o = s.last();
        reveal_strlit("file_path");
        reveal_strlit("language");
        assert("file_path"@.len() == 9 && "language"@.len() == 8);
        assert("file_path"@ != "language"@);
        if code_entity_matches(o, f) {
            assert forall|name: Seq<char>| #[trigger] g.attributes@.contains_key(name) implies o.attributes.get_spec(name) == Some(g.attributes@[name]) by {}
        }
        if entity_matches(o, g) {
            if f.path is Some {
                assert(g.attributes@.contains_key("file_path"@));
            }
            if f.language is Some {
                assert(g.attributes@.contains_key("language"@));
            }
        }
        assert(entity_matches(o, g) == code_entity_matches(o, f));
    }
}

/// Finds code entities by code-domain conveniences, in the order the store
/// listed them, at most `filter.limit` of them.
pub fn find(entities: &[EntityObservation], filter: &CodeEntityFilter) -> (r: Vec<EntityObservation>)
    requires
        forall|i: int| 0 <= i < entities@.len() ==> (#[trigger] entities@[i]).wf(),
    ensures
        same_observations(r@, limited(code_matching(entities@, *filter), filter.limit)),
        forall|i: int| 0 <= i < r@.len() ==> (#[trigger] r@[i]).wf(),
{
    let f = code_filter(filter);
    proof {
        lemma_code_matching(entities@, *filter, f);
    }
    find_entities(entities, &f)
}

/// The value of a whole-number attribute that fits in a `u32`.
pub fn u32_attribute(attributes: &Attributes, name: &str) -> (r: Option<u32>)
    requires
        attributes.wf(),
    ensures
        r == u32_value(attributes.get_spec(name@)),
{
    match attributes.get(name) {
        Some(AttributeValue::Unsigned(n)) => if *n <= u32::MAX as u64 {
            Some(*n as u32)
        } else {
            None
        },
        _ => None,
    }
}

/// How many lines past its first an entity spans, when it covers `line`.
pub open spec fn line_span(o: EntityObservation, line: u32) -> Option<u32> {
    match u32_value(o.attributes.get_spec("line_start"@)) {
        None => None,
        Some(start) => {
            let end = match u32_value(o.attributes.get_spec("line_end"@)) {
                Some(e) => e,
                None => start,
            };
            if start <= line && line <= end {
                Some((end - start) as u32)
            } else {
                None
            }
        },
    }
}

/// Order of candidate entities: narrower first, then by identifier.
pub open spec fn narrower(a: (u32, Seq<char>), b: (u32, Seq<char>)) -> bool {
    a.0 < b.0 || (a.0 == b.0 && seq_lt(a.1, b.1))
}

/// The first of the narrowest entities of `s` that cover `line`.
pub open spec fn narrowest(s: Seq<EntityObservation>, line: u32) -> Option<EntityObservation>
    decreases s.len(),
{
    if s.len() == 0 {
        None
    } else {
        let best = narrowest(s.drop_last(), line);
        let o = s.last();
        match line_span(o, line) {
            None => best,
            Some(span) => match best {
                None => Some(o),
                Some(b) => if narrower((span, o.entity.id@), (line_span(b, line).unwrap(), b.entity.id@)) {
                    Some(o)
                } else {
                    best
                },
            },
        }
    }
}

proof fn lemma_narrowest_covers(s: Seq<EntityObservation>, line: u32)
    ensures
        narrowest(s, line) matches Some(b) ==> line_span(b, line) is Some,
    decreases s.len(),
{
    if s.len() > 0 {
        lemma_narrowest_covers(s.drop_last(), line);
    }
}

/// The code entities of `s` recorded in the file `path`, in order.
pub open spec fn at_path(s: Seq<EntityObservation>, path: Seq<char>) -> Seq<EntityObservation>
    decreases s.len(),
{
    if s.len() == 0 {
        s
    } else if same_ignoring_ascii_case(s.last().entity.model@, CODE_MODEL_ID@)
        && s.last().attributes.get_spec("file_path"@) == Some(AttributeView::Text(path)) {
        at_path(s.drop_last(), path).push(s.last())
    } else {
        at_path(s.drop_last(), path)
    }
}

proof fn lemma_at_path(s: Seq<EntityObservation>, f: CodeEntityFilter, path: Seq<char>)
    requires
        f.path matches Some(p) && p@ == path,
        f.kind is None,
        f.name_contains is None,
        f.language is None,
    ensures
        code_matching(s, f) == at_path(s, path),
    decreases s.len(),
{
    if s.len() > 0 {
        lemma_at_path(s.drop_last(), f, path);
    }
}

/// `o` is a code entity recorded in the file `path`.
pub open spec fn code_of_file(o: EntityObservation, path: Seq<char>) -> bool {
    same_ignoring_ascii_case(o.entity.model@, CODE_MODEL_ID@) && o.attributes.get_spec("file_path"@) == Some(
        AttributeView::Text(path),
    )
}

/// Of the entities of `s` that cover `line`, the chosen one is one of them
/// and no other is narrower; there is none exactly when none covers it.
proof fn lemma_narrowest_is_narrowest(s: Seq<EntityObservation>, line: u32)
    ensures
        narrowest(s, line) is None <==> forall|i: int| 0 <= i < s.len() ==> (#[trigger] line_span(s[i], line)) is None,
        narrowest(s, line) matches Some(b) ==> {
            &&& exists|i: int| 0 <= i < s.len() && s[i] == b
            &&& line_span(b, line) is Some
            &&& forall|i: int| 0 <= i < s.len() && (#[trigger] line_span(s[i], line)) is Some
                ==> line_span(b, line)->Some_0 <= line_span(s[i], line)->Some_0
            &&& forall|i: int| 0 <= i < s.len() && (#[trigger] line_span(s[i], line)) == line_span(b, line)
                ==> !seq_lt(s[i].entity.id@, b.entity.id@)
        },
    decreases s.len(),
{
    if s.len() > 0 {
        let init = s.drop_last();
        lemma_narrowest_is_narrowest(init, line);
        assert forall|i: int| 0 <= i < init.len() implies init[i] == s[i] by {}
        if let Some(bb) = narrowest(s, line) {
            assert forall|i: int| 0 <= i < s.len() && (#[trigger] line_span(s[i], line)) == line_span(bb, line)
                implies !seq_lt(s[i].entity.id@, bb.entity.id@) by {
                if i == s.len() - 1 {
                    assert(s[i] == s.last());
                    if bb == s.last() {
                        lemma_seq_lt_irreflexive(bb.entity.id@);
                    }
                } else {
                    assert(init[i] == s[i]);
                    if let Some(b) = narrowest(init, line) {
                        if bb != b {
                            let span = line_span(s.last(), line).unwrap();
                            let bspan = line_span(b, line).unwrap();
                            assert(narrowest(s, line) == Some(s.last()));
                            assert(narrower((span, s.last().entity.id@), (bspan, b.entity.id@)));
                            if seq_lt(init[i].entity.id@, s.last().entity.id@) && span == bspan {
                                lemma_seq_lt_transitive(init[i].entity.id@, s.last().entity.id@, b.entity.id@);
                            }
                        }
                    } else {
                        assert(line_span(init[i], line) is None);
                    }
                }
            }
        }
        assert(s[s.len() - 1] == s.last());
        if narrowest(s, line) is None {
            assert forall|i: int| 0 <= i < s.len() implies (#[trigger] line_span(s[i], line)) is None by {
                if i < init.len() {
                    assert(init[i] == s[i]);
                }
            }
        }
        if let Some(b) = narrowest(init, line) {
            let k = choose|k: int| 0 <= k < init.len() && init[k] == b;
            assert(s[k] == b);
        }
    }
}

/// The code entities of a file, in the order given, are those of `s`.
proof fn lemma_at_path_members(s: Seq<EntityObservation>, path: Seq<char>)
    ensures
        forall|k: int| 0 <= k < at_path(s, path).len() ==> exists|i: int| 0 <= i < s.len() && s[i] == #[trigger] at_path(s, path)[k],
        forall|k: int| 0 <= k < at_path(s, path).len() ==> code_of_file(#[trigger] at_path(s, path)[k], path),
        forall|i: int| 0 <= i < s.len() && code_of_file(#[trigger] s[i], path) ==> exists|k: int|
            0 <= k < at_path(s, path).len() && at_path(s, path)[k] == s[i],
    decreases s.len(),
{
    if s.len() > 0 {
        let init = s.drop_last();
        lemma_at_path_members(init, path);
        let a = at_path(init, path);
        assert forall|i: int| 0 <= i < init.len() implies init[i] == s[i] by {}
        assert(s[s.len() - 1] == s.last());
        assert forall|k: int| 0 <= k < at_path(s, path).len() implies exists|i: int| 0 <= i < s.len() && s[i] == #[trigger] at_path(s, path)[k] by {
            if k < a.len() {
                assert(at_path(s, path)[k] == a[k]);
                let i = choose|i: int| 0 <= i < init.len() && init[i] == a[k];
                assert(s[i] == init[i]);
            } else {
                assert(s[s.len() - 1] == at_path(s, path)[k]);
            }
        }
        assert forall|k: int| 0 <= k < at_path(s, path).len() implies code_of_file(#[trigger] at_path(s, path)[k], path) by {
            if k < a.len() {
                assert(at_path(s, path)[k] == a[k]);
            }
        }
        assert forall|i: int| 0 <= i < s.len() && code_of_file(#[trigger] s[i], path) implies exists|k: int|
            0 <= k < at_path(s, path).len() && at_path(s, path)[k] == s[i] by {
            if i < init.len() {
                assert(init[i] == s[i]);
                assert(code_of_file(init[i], path));
                let k = choose|k: int| 0 <= k < a.len() && a[k] == init[i];
                assert(at_path(s, path)[k] == a[k]);
            } else {
                assert(at_path(s, path)[a.len() as int] == s.last());
            }
        }
    }
}

/// The entity found at a line of a file is a code entity of that file that
/// covers the line, and no code entity of the file that covers the line has
/// a smaller span (`line_end - line_start`, nought without an end), nor the
/// same span and a smaller identifier; when none is found, no code entity of
/// the file covers the line.
pub proof fn law_at_location_is_narrowest(entities: Seq<EntityObservation>, path: Seq<char>, line: u32)
    ensures
        narrowest(at_path(entities, path), line) matches Some(o) ==> {
            &&& code_of_file(o, path)
            &&& line_span(o, line) is Some
            &&& forall|i: int| 0 <= i < entities.len() && code_of_file(#[trigger] entities[i], path) && line_span(entities[i], line) is Some
                ==> line_span(o, line)->Some_0 <= line_span(entities[i], line)->Some_0
            &&& forall|i: int| 0 <= i < entities.len() && code_of_file(#[trigger] entities[i], path) && line_span(entities[i], line)
                == line_span(o, line) ==> !seq_lt(entities[i].entity.id@, o.entity.id@)
        },
        narrowest(at_path(entities, path), line) is None ==> forall|i: int|
            0 <= i < entities.len() && code_of_file(#[trigger] entities[i], path) ==> line_span(entities[i], line) is None,
{
    let a = at_path(entities, path);
    lemma_at_path_members(entities, path);
    lemma_narrowest_is_narrowest(a, line);
    if let Some(o) = narrowest(a, line) {
        let k = choose|k: int| 0 <= k < a.len() && a[k] == o;
        assert(code_of_file(a[k], path));
        assert forall|i: int| 0 <= i < entities.len() && code_of_file(#[trigger] entities[i], path) && line_span(entities[i], line) is Some
            implies line_span(o, line)->Some_0 <= line_span(entities[i], line)->Some_0 by {
            let k2 = choose|k2: int| 0 <= k2 < a.len() && a[k2] == entities[i];
            assert(line_span(a[k2], line) is Some);
        }
        assert forall|i: int| 0 <= i < entities.len() && code_of_file(#[trigger] entities[i], path) && line_span(entities[i], line)
            == line_span(o, line) implies !seq_lt(entities[i].entity.id@, o.entity.id@) by {
            let k2 = choose|k2: int| 0 <= k2 < a.len() && a[k2] == entities[i];
            assert(line_span(a[k2], line) == line_span(o, line));
        }
    } else {
        assert forall|i: int| 0 <= i < entities.len() && code_of_file(#[trigger] entities[i], path)
            implies line_span(entities[i], line) is None by {
            let k2 = choose|k2: int| 0 <= k2 < a.len() && a[k2] == entities[i];
            assert(line_span(a[k2], line) is None);
        }
    }
}

/// Finds the narrowest code entity that contains a one-based source line of
/// the file `path`; among equally narrow ones, the first by identifier, and
/// among those the first the store listed.
pub fn at_location(entities: &[EntityObservation], path: &str, line: u32) -> (r: Option<EntityObservation>)
    requires
        forall|i: int| 0 <= i < entities@.len() ==> (#[trigger] entities@[i]).wf(),
    ensures
        match narrowest(at_path(entities@, path@), line) {
            Some(b) => r matches Some(o) && same_observation(o, b),
            None => r is None,
        },
        r matches Some(o) ==> code_of_file(o, path@) && line_span(o, line) is Some && forall|i: int|
            0 <= i < entities@.len() && code_of_file(#[trigger] entities@[i], path@) && line_span(entities@[i], line) is Some
                ==> line_span(o, line)->Some_0 <= line_span(entities@[i], line)->Some_0,
        r matches Some(o) ==> forall|i: int|
            0 <= i < entities@.len() && code_of_file(#[trigger] entities@[i], path@) && line_span(entities@[i], line)
                == line_span(o, line) ==> !seq_lt(entities@[i].entity.id@, o.entity.id@),
        r is None ==> forall|i: int|
            0 <= i < entities@.len() && code_of_file(#[trigger] entities@[i], path@) ==> line_span(entities@[i], line) is None,
{
    proof {
        law_at_location_is_narrowest(entities@, path@, line);
    }
    let filter = CodeEntityFilter {
        path: Some(path.to_owned()),
        name_contains: None,
        kind: None,
        language: None,
        limit: None,
    };
    let candidates = find(entities, &filter);
    let ghost cs = at_path(entities@, path@);
    proof {
        lemma_at_path(entities@, filter, path@);
    }
    let mut best: Option<(usize, u32)> = None;
    let mut i: usize = 0;
    while i < candidates.len()
        invariant
            i <= candidates@.len(),
            same_observations(candidates@, cs),
            forall|k: int| 0 <= k < candidates@.len() ==> (#[trigger] candidates@[k]).wf(),
            match narrowest(cs.take(i as int), line) {
                Some(b) => best matches Some((x, span)) && x < i && same_observation(candidates@[x as int], b)
                    && line_span(b, line) == Some(span),
                None => best is None,
            },
        decreases candidates@.len() - i,
    {
        let o = &candidates[i];
        proof {
            assert(cs.take(i + 1).drop_last() =~= cs.take(i as int));
            assert(cs.take(i + 1).last() == cs[i as int]);
            assert(same_observation(candidates@[i as int], cs[i as int]));
            lemma_narrowest_covers(cs.take(i as int), line);
        }
        let start = u32_attribute(&o.attributes, "line_start");
        if let Some(start) = start {
            let end = match u32_attribute(&o.attributes, "line_end") {
                Some(e) => e,
                None => start,
            };
            if start <= line && line <= end {
                let span = end - start;
                let better = match best {
                    None => true,
                    Some((x, bspan)) => span < bspan || (span == bspan && compare_chars(
                        &chars_of(o.entity.id.as_str()),
                        &chars_of(candidates[x].entity.id.as_str()),
                    ) < 0),
                };
                if better {
                    best = Some((i, span));
                }
            }
        }
        i = i + 1;
    }
    assert(cs.take(i as int) =~= cs);
    match best {
        Some((x, _)) => {
            let o = candidates[x].copy();
            proof {
                let b = narrowest(cs, line).unwrap();
                lemma_same_observation_symmetric(candidates@[x as int], o);
                lemma_same_observation_transitive(o, candidates@[x as int], b);
            }
            Some(o)
        },
        None => None,
    }
}

/// An optional string's text.
pub open spec fn opt_text(o: Option<String>) -> Option<Seq<char>> {
    match o {
        Some(s) => Some(s@),
        None => None,
    }
}

/// `s` summarizes the entity `o`.
pub open spec fn summarizes(s: CodeEntitySummary, o: EntityObservation) -> bool {
    &&& s.id@ == o.entity.id@
    &&& s.label@ == o.entity.label@
    &&& s.kind@ == o.entity.kind@
    &&& opt_text(s.path) == text_value(o.attributes.get_spec("file_path"@))
    &&& s.line_start == u32_value(o.attributes.get_spec("line_start"@))
    &&& s.line_end == u32_value(o.attributes.get_spec("line_end"@))
}

impl CodeEntitySummary {
    /// The report facts of one code entity.
    pub fn from(observation: &EntityObservation) -> (r: Self)
        requires
            observation.wf(),
        ensures
            summarizes(r, *observation),
    {
        let path = match observation.attributes.get("file_path") {
            Some(v) => match v.as_text() {
                Some(t) => Some(t.to_owned()),
                None => None,
            },
            None => None,
        };
        CodeEntitySummary {
            id: observation.entity.id.duplicate(),
            label: observation.entity.label.clone(),
            kind: observation.entity.kind.clone(),
            path,
            line_start: u32_attribute(&observation.attributes, "line_start"),
            line_end: u32_attribute(&observation.attributes, "line_end"),
        }
    }
}

/// How many of `nodes` are at depth `d`.
pub open spec fn count_at_depth(nodes: Seq<TraversedEntity>, d: u32) -> nat
    decreases nodes.len(),
{
    if nodes.len() == 0 {
        0
    } else {
        count_at_depth(nodes.drop_last(), d) + if nodes.last().depth == d {
            1nat
        } else {
            0nat
        }
    }
}

/// How many of `nodes` are deeper than `d`.
pub open spec fn count_beyond(nodes: Seq<TraversedEntity>, d: u32) -> nat
    decreases nodes.len(),
{
    if nodes.len() == 0 {
        0
    } else {
        count_beyond(nodes.drop_last(), d) + if nodes.last().depth > d {
            1nat
        } else {
            0nat
        }
    }
}

proof fn lemma_counts_bounded(nodes: Seq<TraversedEntity>, d: u32)
    ensures
        count_at_depth(nodes, d) <= nodes.len(),
        count_beyond(nodes, d) <= nodes.len(),
    decreases nodes.len(),
{
    if nodes.len() > 0 {
        lemma_counts_bounded(nodes.drop_last(), d);
    }
}

/// The walk an impact analysis makes: along dependents' relations, towards
/// the entity.
pub open spec fn impact_request(entity: Seq<char>, max_depth: u32, max_nodes: usize) -> RequestView {
    RequestView {
        root: entity,
        direction: RelationDirection::Incoming,
        max_depth,
        max_nodes,
        kinds: impact_kinds(),
    }
}

/// Walks the callers, references, imports and type dependencies that a
/// change to one code entity can affect, and counts its direct (depth one)
/// and transitive (deeper) dependents.
pub fn impact(
    snapshot: &SnapshotId,
    entities: &[EntityObservation],
    relations: &[RelationObservation],
    entity: &EntityId,
    max_depth: u32,
    max_nodes: usize,
) -> (r: Result<CodeImpact, QueryError>)
    requires
        forall|i: int| 0 <= i < entities@.len() ==> (#[trigger] entities@[i]).wf(),
        forall|i: int| 0 <= i < relations@.len() ==> (#[trigger] relations@[i]).wf(),
    ensures
        r is Ok <==> max_nodes > 0 && present(entities@, entity@),
        r matches Err(e) ==> traversal_answer(*snapshot, entities@, relations@, impact_request(entity@, max_depth, max_nodes), Err(e)),
        r matches Ok(c) ==> {
            &&& traversal_answer(*snapshot, entities@, relations@, impact_request(entity@, max_depth, max_nodes), Ok(c.graph))
            &&& c.schema_version == QUERY_SCHEMA_VERSION
            &&& c.snapshot.world@ == snapshot.world@ && c.snapshot.version@ == snapshot.version@
            &&& c.target.entity.id@ == entity@
            &&& same_observation(c.target, entities@[last_index(entities@, entity@)])
            &&& c.direct_dependents == count_at_depth(c.graph.nodes@, 1)
            &&& c.transitive_dependents == count_beyond(c.graph.nodes@, 1)
        },
{
    let request = GraphRequest {
        root: entity.duplicate(),
        direction: RelationDirection::Incoming,
        max_depth,
        max_nodes,
        relation_kinds: impact_relation_kinds(),
    };
    assert(request@ == impact_request(entity@, max_depth, max_nodes));
    let graph = match traverse(snapshot, entities, relations, &request) {
        Ok(g) => g,
        Err(e) => return Err(e),
    };
    let ghost w = full_walk(relations@, entities@, request@);
    proof {
        law_traversal_bounded(relations@, entities@, request@);
        assert(in_nodes(graph.nodes@, w.found[0], entities@));
    }
    let mut target: Option<usize> = None;
    let mut direct: usize = 0;
    let mut transitive: usize = 0;
    let mut i: usize = 0;
    while i < graph.nodes.len()
        invariant
            i <= graph.nodes@.len(),
            direct == count_at_depth(graph.nodes@.take(i as int), 1),
            transitive == count_beyond(graph.nodes@.take(i as int), 1),
            match target {
                Some(t) => t < i && graph.nodes@[t as int].depth == 0,
                None => forall|k: int| 0 <= k < i ==> (#[trigger] graph.nodes@[k]).depth != 0,
            },
        decreases graph.nodes@.len() - i,
    {
        proof {
            assert(graph.nodes@.take(i + 1).drop_last() =~= graph.nodes@.take(i as int));
            lemma_counts_bounded(graph.nodes@.take(i as int), 1);
        }
        let d = graph.nodes[i].depth;
        if d == 0 && target.is_none() {
            target = Some(i);
        }
        if d == 1 {
            direct = direct + 1;
        }
        if d > 1 {
            transitive = transitive + 1;
        }
        i = i + 1;
    }
    assert(graph.nodes@.take(i as int) =~= graph.nodes@);
    let t = match target {
        Some(t) => t,
        None => {
            proof {
                let k = choose|k: int| 0 <= k < graph.nodes@.len() && node_for(#[trigger] graph.nodes@[k], w.found[0], entities@);
                assert(graph.nodes@[k].depth == 0);
            }
            return Err(QueryError::EntityNotFound { entity: entity.duplicate() });
        },
    };
    let target = graph.nodes[t].observation.copy();
    proof {
        let nt = graph.nodes@[t as int];
        assert(from_found(nt, w.found, entities@));
        let k = choose|k: int| 0 <= k < w.found.len() && node_for(nt, #[trigger] w.found[k], entities@);
        assert(k == 0) by {
            if k != 0 {
                assert(w.found[k].1 >= 1);
            }
        }
        lemma_same_observation_symmetric(nt.observation, target);
        lemma_same_observation_transitive(target, nt.observation, entities@[last_index(entities@, entity@)]);
    }
    Ok(CodeImpact {
        schema_version: QUERY_SCHEMA_VERSION,
        snapshot: snapshot.duplicate(),
        target,
        direct_dependents: direct,
        transitive_dependents: transitive,
        graph,
    })
}

/// Whether the entity carries a measurement named `name`.
pub open spec fn has_measurement(o: EntityObservation, name: Seq<char>) -> bool {
    exists|i: int| 0 <= i < o.measurements@.len() && (#[trigger] o.measurements@[i]).name@ == name
}

/// Whether the entity carries a score along `dimension`.
pub open spec fn has_score(o: EntityObservation, dimension: Seq<char>) -> bool {
    exists|i: int| 0 <= i < o.scores@.len() && (#[trigger] o.scores@[i]).dimension@ == dimension
}

/// The names of `names` the entity has no measurement for, in order.
pub open spec fn missing_measurements(names: Seq<Seq<char>>, o: EntityObservation) -> Seq<Seq<char>>
    decreases names.len(),
{
    if names.len() == 0 {
        names
    } else if has_measurement(o, names.last()) {
        missing_measurements(names.drop_last(), o)
    } else {
        missing_measurements(names.drop_last(), o).push(names.last())
    }
}

/// The dimensions of `dims` the entity has no score for, in order.
pub open spec fn missing_scores(dims: Seq<Seq<char>>, o: EntityObservation) -> Seq<Seq<char>>
    decreases dims.len(),
{
    if dims.len() == 0 {
        dims
    } else if has_score(o, dims.last()) {
        missing_scores(dims.drop_last(), o)
    } else {
        missing_scores(dims.drop_last(), o).push(dims.last())
    }
}

/// A code entity can be scored once its size is measured.
pub open spec fn scoreable(o: EntityObservation) -> bool {
    has_measurement(o, "code.lines_of_code"@)
}

/// A scoreable entity that lacks nothing.
pub open spec fn fully_scored(o: EntityObservation) -> bool {
    &&& missing_measurements(avec_required_measurements(), o).len() == 0
    &&& missing_scores(avec_score_dimensions(), o).len() == 0
}

pub open spec fn is_code(o: EntityObservation) -> bool {
    same_ignoring_ascii_case(o.entity.model@, CODE_MODEL_ID@)
}

/// How many code entities of `s` can be scored.
pub open spec fn scoreable_count(s: Seq<EntityObservation>) -> nat
    decreases s.len(),
{
    if s.len() == 0 {
        0
    } else {
        scoreable_count(s.drop_last()) + if is_code(s.last()) && scoreable(s.last()) {
            1nat
        } else {
            0nat
        }
    }
}

/// How many code entities of `s` lack nothing.
pub open spec fn fully_scored_count(s: Seq<EntityObservation>) -> nat
    decreases s.len(),
{
    if s.len() == 0 {
        0
    } else {
        fully_scored_count(s.drop_last()) + if is_code(s.last()) && scoreable(s.last()) && fully_scored(s.last()) {
            1nat
        } else {
            0nat
        }
    }
}

/// The scoreable code entities of `s` that lack something, in order.
pub open spec fn gap_entities(s: Seq<EntityObservation>) -> Seq<EntityObservation>
    decreases s.len(),
{
    if s.len() == 0 {
        s
    } else if is_code(s.last()) && scoreable(s.last()) && !fully_scored(s.last()) {
        gap_entities(s.drop_last()).push(s.last())
    } else {
        gap_entities(s.drop_last())
    }
}

proof fn lemma_missing_scores(dims: Seq<Seq<char>>, o: EntityObservation)
    ensures
        missing_scores(dims, o).len() == 0 <==> forall|d: int| 0 <= d < dims.len() ==> has_score(o, #[trigger] dims[d]),
        forall|d: int| 0 <= d < dims.len() && !has_score(o, #[trigger] dims[d]) ==> missing_scores(dims, o).contains(dims[d]),
    decreases dims.len(),
{
    if dims.len() > 0 {
        let init = dims.drop_last();
        lemma_missing_scores(init, o);
        assert forall|d: int| 0 <= d < init.len() implies init[d] == dims[d] by {}
        assert(dims[dims.len() - 1] == dims.last());
        let m = missing_scores(dims, o);
        let mi = missing_scores(init, o);
        if !has_score(o, dims.last()) {
            assert(m == mi.push(dims.last()));
            assert(m[m.len() - 1] == dims.last());
        }
        assert forall|d: int| 0 <= d < dims.len() && !has_score(o, #[trigger] dims[d]) implies m.contains(dims[d]) by {
            if d < init.len() {
                assert(init[d] == dims[d]);
                let x = choose|x: int| 0 <= x < mi.len() && mi[x] == init[d];
                if !has_score(o, dims.last()) {
                    assert(m[x] == mi[x]);
                }
            }
        }
        if m.len() == 0 {
            assert forall|d: int| 0 <= d < dims.len() implies has_score(o, #[trigger] dims[d]) by {
                if d < init.len() {
                    assert(init[d] == dims[d]);
                }
            }
        }
    }
}

proof fn lemma_missing_measurements(names: Seq<Seq<char>>, o: EntityObservation)
    ensures
        missing_measurements(names, o).len() == 0 <==> forall|n: int| 0 <= n < names.len() ==> has_measurement(o, #[trigger] names[n]),
        forall|n: int| 0 <= n < names.len() && !has_measurement(o, #[trigger] names[n]) ==> missing_measurements(names, o).contains(names[n]),
    decreases names.len(),
{
    if names.len() > 0 {
        let init = names.drop_last();
        lemma_missing_measurements(init, o);
        assert forall|n: int| 0 <= n < init.len() implies init[n] == names[n] by {}
        assert(names[names.len() - 1] == names.last());
        let m = missing_measurements(names, o);
        let mi = missing_measurements(init, o);
        if !has_measurement(o, names.last()) {
            assert(m == mi.push(names.last()));
            assert(m[m.len() - 1] == names.last());
        }
        assert forall|n: int| 0 <= n < names.len() && !has_measurement(o, #[trigger] names[n]) implies m.contains(names[n]) by {
            if n < init.len() {
                assert(init[n] == names[n]);
                let x = choose|x: int| 0 <= x < mi.len() && mi[x] == init[n];
                if !has_measurement(o, names.last()) {
                    assert(m[x] == mi[x]);
                }
            }
        }
        if m.len() == 0 {
            assert forall|n: int| 0 <= n < names.len() implies has_measurement(o, #[trigger] names[n]) by {
                if n < init.len() {
                    assert(init[n] == names[n]);
                }
            }
        }
    }
}

proof fn lemma_gap_entities(s: Seq<EntityObservation>)
    ensures
        fully_scored_count(s) + gap_entities(s).len() == scoreable_count(s),
        forall|i: int| 0 <= i < s.len() && is_code(#[trigger] s[i]) && scoreable(s[i]) && !fully_scored(s[i])
            ==> gap_entities(s).contains(s[i]),
    decreases s.len(),
{
    if s.len() > 0 {
        let init = s.drop_last();
        lemma_gap_entities(init);
        assert forall|i: int| 0 <= i < init.len() implies init[i] == s[i] by {}
        assert(s[s.len() - 1] == s.last());
        let g = gap_entities(s);
        let gi = gap_entities(init);
        let last_gap = is_code(s.last()) && scoreable(s.last()) && !fully_scored(s.last());
        if last_gap {
            assert(g == gi.push(s.last()));
            assert(g[g.len() - 1] == s.last());
        }
        assert forall|i: int| 0 <= i < s.len() && is_code(#[trigger] s[i]) && scoreable(s[i]) && !fully_scored(s[i])
            implies g.contains(s[i]) by {
            if i < init.len() {
                assert(init[i] == s[i]);
                let x = choose|x: int| 0 <= x < gi.len() && gi[x] == init[i];
                if last_gap {
                    assert(g[x] == gi[x]);
                }
            }
        }
    }
}

/// What a gap report says of a snapshot's code entities: an entity counts as
/// fully scored exactly when it carries every AVEC measurement and a score
/// along every AVEC dimension; a dimension an entity has no score along, and
/// a measurement it lacks, are among what it misses; every scoreable code
/// entity that is not fully scored is reported as a gap; and the fully scored
/// entities and the gaps together are the scoreable ones.
pub proof fn law_gaps_report_what_is_missing(s: Seq<EntityObservation>)
    ensures
        fully_scored_count(s) + gap_entities(s).len() == scoreable_count(s),
        forall|o: EntityObservation| #[trigger] fully_scored(o) <==> {
            &&& forall|n: int| 0 <= n < avec_required_measurements().len() ==> has_measurement(o, #[trigger] avec_required_measurements()[n])
            &&& forall|d: int| 0 <= d < avec_score_dimensions().len() ==> has_score(o, #[trigger] avec_score_dimensions()[d])
        },
        forall|o: EntityObservation, d: int| 0 <= d < avec_score_dimensions().len() && !#[trigger] has_score(o, avec_score_dimensions()[d])
            ==> missing_scores(avec_score_dimensions(), o).contains(avec_score_dimensions()[d]),
        forall|o: EntityObservation, n: int|
            0 <= n < avec_required_measurements().len() && !#[trigger] has_measurement(o, avec_required_measurements()[n])
            ==> missing_measurements(avec_required_measurements(), o).contains(avec_required_measurements()[n]),
        forall|i: int| 0 <= i < s.len() && is_code(#[trigger] s[i]) && scoreable(s[i]) && !fully_scored(s[i])
            ==> gap_entities(s).contains(s[i]),
{
    lemma_gap_entities(s);
    assert forall|o: EntityObservation| #[trigger] fully_scored(o) <==> {
        &&& forall|n: int| 0 <= n < avec_required_measurements().len() ==> has_measurement(o, #[trigger] avec_required_measurements()[n])
        &&& forall|d: int| 0 <= d < avec_score_dimensions().len() ==> has_score(o, #[trigger] avec_score_dimensions()[d])
    } by {
        lemma_missing_scores(avec_score_dimensions(), o);
        lemma_missing_measurements(avec_required_measurements(), o);
    }
    assert forall|o: EntityObservation, d: int| 0 <= d < avec_score_dimensions().len() && !#[trigger] has_score(o, avec_score_dimensions()[d])
        implies missing_scores(avec_score_dimensions(), o).contains(avec_score_dimensions()[d]) by {
        lemma_missing_scores(avec_score_dimensions(), o);
    }
    assert forall|o: EntityObservation, n: int|
        0 <= n < avec_required_measurements().len() && !#[trigger] has_measurement(o, avec_required_measurements()[n])
        implies missing_measurements(avec_required_measurements(), o).contains(avec_required_measurements()[n]) by {
        lemma_missing_measurements(avec_required_measurements(), o);
    }
}

proof fn lemma_counts_le(s: Seq<EntityObservation>)
    ensures
        fully_scored_count(s) <= scoreable_count(s) <= s.len(),
    decreases s.len(),
{
    if s.len() > 0 {
        lemma_counts_le(s.drop_last());
    }
}

/// `g` reports what the entity `o` lacks.
pub open spec fn reports_gap(g: EntityAnalysisGap, o: EntityObservation) -> bool {
    &&& summarizes(g.entity, o)
    &&& g.missing_measurements@.map_values(|x: String| x@) == missing_measurements(avec_required_measurements(), o)
    &&& g.missing_scores@.map_values(|x: String| x@) == missing_scores(avec_score_dimensions(), o)
}

fn has_measurement_exec(o: &EntityObservation, name: &str) -> (r: bool)
    ensures
        r == has_measurement(*o, name@),
{
    let key = name.to_owned();
    let mut i: usize = 0;
    while i < o.measurements.len()
        invariant
            i <= o.measurements@.len(),
            key@ == name@,
            forall|k: int| 0 <= k < i ==> (#[trigger] o.measurements@[k]).name@ != name@,
        decreases o.measurements@.len() - i,
    {
        if o.measurements[i].name == key {
            return true;
        }
        i = i + 1;
    }
    false
}

fn has_score_exec(o: &EntityObservation, dimension: &str) -> (r: bool)
    ensures
        r == has_score(*o, dimension@),
{
    let key = dimension.to_owned();
    let mut i: usize = 0;
    while i < o.scores.len()
        invariant
            i <= o.scores@.len(),
            key@ == dimension@,
            forall|k: int| 0 <= k < i ==> (#[trigger] o.scores@[k]).dimension@ != dimension@,
        decreases o.scores@.len() - i,
    {
        if o.scores[i].dimension == key {
            return true;
        }
        i = i + 1;
    }
    false
}

fn missing_measurements_exec(o: &EntityObservation) -> (r: Vec<String>)
    ensures
        r@.map_values(|x: String| x@) == missing_measurements(avec_required_measurements(), *o),
{
    let names = avec_required_measurements_list();
    let ghost ns = names@.map_values(|s: &str| s@);
    let mut out: Vec<String> = Vec::new();
    let mut i: usize = 0;
    while i < names.len()
        invariant
            i <= names@.len(),
            ns == names@.map_values(|s: &str| s@),
            out@.map_values(|x: String| x@) == missing_measurements(ns.take(i as int), *o),
        decreases names@.len() - i,
    {
        proof {
            assert(ns.take(i + 1).drop_last() =~= ns.take(i as int));
            assert(ns.take(i + 1).last() == names@[i as int]@);
        }
        if !has_measurement_exec(o, names[i]) {
            let ghost before = out@;
            out.push(names[i].to_owned());
            assert(out@.map_values(|x: String| x@) =~= before.map_values(|x: String| x@).push(names@[i as int]@));
        }
        i = i + 1;
    }
    assert(ns.take(i as int) =~= ns);
    out
}

fn missing_scores_exec(o: &EntityObservation) -> (r: Vec<String>)
    ensures
        r@.map_values(|x: String| x@) == missing_scores(avec_score_dimensions(), *o),
{
    let dims = avec_score_dimensions_list();
    let ghost ds = dims@.map_values(|s: &str| s@);
    let mut out: Vec<String> = Vec::new();
    let mut i: usize = 0;
    while i < dims.len()
        invariant
            i <= dims@.len(),
            ds == dims@.map_values(|s: &str| s@),
            out@.map_values(|x: String| x@) == missing_scores(ds.take(i as int), *o),
        decreases dims@.len() - i,
    {
        proof {
            assert(ds.take(i + 1).drop_last() =~= ds.take(i as int));
            assert(ds.take(i + 1).last() == dims@[i as int]@);
        }
        if !has_score_exec(o, dims[i]) {
            let ghost before = out@;
            out.push(dims[i].to_owned());
            assert(out@.map_values(|x: String| x@) =~= before.map_values(|x: String| x@).push(dims@[i as int]@));
        }
        i = i + 1;
    }
    assert(ds.take(i as int) =~= ds);
    out
}

/// Reports why the code entities of a snapshot cannot yet receive complete
/// AVEC output: how many can be scored (their size is measured), how many
/// lack nothing, and for each of the others which measurements and scores
/// it lacks.
pub fn gaps<M>(snapshot: &SnapshotId, metadata: Option<M>, entities: &[EntityObservation]) -> (r: AnalysisGapReport<M>)
    requires
        forall|i: int| 0 <= i < entities@.len() ==> (#[trigger] entities@[i]).wf(),
    ensures
        r.schema_version == QUERY_SCHEMA_VERSION,
        r.snapshot.world@ == snapshot.world@ && r.snapshot.version@ == snapshot.version@,
        r.metadata == metadata,
        r.scoreable_entities == scoreable_count(entities@),
        r.fully_scored_entities == fully_scored_count(entities@),
        r.gaps@.len() == gap_entities(entities@).len(),
        forall|i: int| 0 <= i < r.gaps@.len() ==> reports_gap(#[trigger] r.gaps@[i], gap_entities(entities@)[i]),
        r.fully_scored_entities + r.gaps@.len() == r.scoreable_entities,
{
    proof {
        law_gaps_report_what_is_missing(entities@);
    }
    let mut scoreable_entities: usize = 0;
    let mut fully_scored_entities: usize = 0;
    let mut found: Vec<EntityAnalysisGap> = Vec::new();
    let mut i: usize = 0;
    while i < entities.len()
        invariant
            i <= entities@.len(),
            forall|k: int| 0 <= k < entities@.len() ==> (#[trigger] entities@[k]).wf(),
            scoreable_entities == scoreable_count(entities@.take(i as int)),
            fully_scored_entities == fully_scored_count(entities@.take(i as int)),
            found@.len() == gap_entities(entities@.take(i as int)).len(),
            forall|k: int| 0 <= k < found@.len() ==> reports_gap(#[trigger] found@[k], gap_entities(entities@.take(i as int))[k]),
        decreases entities@.len() - i,
    {
        let o = &entities[i];
        let ghost t = entities@.take(i + 1);
        proof {
            assert(t.drop_last() =~= entities@.take(i as int));
            assert(t.last() == entities@[i as int]);
            lemma_counts_le(entities@.take(i as int));
            reveal_strlit("code.lines_of_code");
        }
        if eq_ignore_ascii_case(o.entity.model.as_str(), CODE_MODEL_ID) && has_measurement_exec(o, "code.lines_of_code") {
            scoreable_entities = scoreable_entities + 1;
            let missing_m = missing_measurements_exec(o);
            let missing_s = missing_scores_exec(o);
            if missing_m.len() == 0 && missing_s.len() == 0 {
                fully_scored_entities = fully_scored_entities + 1;
            } else {
                let ghost before = found@;
                found.push(EntityAnalysisGap {
                    entity: CodeEntitySummary::from(o),
                    missing_measurements: missing_m,
                    missing_scores: missing_s,
                });
                proof {
                    assert forall|k: int| 0 <= k < found@.len() implies reports_gap(#[trigger] found@[k], gap_entities(t)[k]) by {
                        if k < before.len() {
                            assert(found@[k] == before[k]);
                        }
                    }
                }
            }
        }
        i = i + 1;
    }
    assert(entities@.take(i as int) =~= entities@);
    AnalysisGapReport {
        schema_version: QUERY_SCHEMA_VERSION,
        snapshot: snapshot.duplicate(),
        metadata,
        scoreable_entities,
        fully_scored_entities,
        gaps: found,
    }
}

} // verus!
