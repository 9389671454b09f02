//! The world-model-agnostic observations that snapshots hold: entities and
//! relations, with attributes, measurements and scores.
use vstd::prelude::*;

use crate::identity::{EntityId, ModelId, RelationId, ScoreModelId, SnapshotId};
use crate::maps::{keys_distinct, has_key, seq_map, lemma_seq_map};
use crate::text::{chars_of, same_chars};

verus! {

/// The value of an attribute, as a JSON value: a number is kept as the
/// unsigned or negative integer it is, or by the bits of its double value;
/// arrays and objects by their canonical JSON text.
#[derive(Debug, Clone, PartialEq)]
pub enum AttributeValue {
    Null,
    Bool(bool),
    Unsigned(u64),
    Negative(i64),
    Float(u64),
    Text(String),
    Structured(String),
}

/// What an attribute value denotes.
pub enum AttributeView {
    Null,
    Bool(bool),
    Unsigned(u64),
    Negative(i64),
    Float(u64),
    Text(Seq<char>),
    Structured(Seq<char>),
}

impl View for AttributeValue {
    type V = AttributeView;

    open spec fn view(&self) -> AttributeView {
        match self {
            AttributeValue::Null => AttributeView::Null,
            AttributeValue::Bool(b) => AttributeView::Bool(*b),
            AttributeValue::Unsigned(n) => AttributeView::Unsigned(*n),
            AttributeValue::Negative(n) => AttributeView::Negative(*n),
            AttributeValue::Float(bits) => AttributeView::Float(*bits),
            AttributeValue::Text(s) => AttributeView::Text(s@),
            AttributeValue::Structured(s) => AttributeView::Structured(s@),
        }
    }
}

impl AttributeValue {
    /// Whether two values are the same JSON value.
    pub fn same(&self, other: &AttributeValue) -> (r: bool)
        ensures
            r == (self@ == other@),
    {
        match (self, other) {
            (AttributeValue::Null, AttributeValue::Null) => true,
            (AttributeValue::Bool(a), AttributeValue::Bool(b)) => *a == *b,
            (AttributeValue::Unsigned(a), AttributeValue::Unsigned(b)) => *a == *b,
            (AttributeValue::Negative(a), AttributeValue::Negative(b)) => *a == *b,
            (AttributeValue::Float(a), AttributeValue::Float(b)) => *a == *b,
            (AttributeValue::Text(a), AttributeValue::Text(b)) => *a == *b,
            (AttributeValue::Structured(a), AttributeValue::Structured(b)) => *a == *b,
            _ => false,
        }
    }

    /// The value as a string, when it is one (`Value::as_str`).
    pub fn as_text(&self) -> (r: Option<&str>)
        ensures
            match self@ {
                AttributeView::Text(s) => r matches Some(t) && t@ == s,
                _ => r is None,
            },
    {
        match self {
            AttributeValue::Text(s) => Some(s.as_str()),
            _ => None,
        }
    }
}

/// The value of an attribute that is a whole number fitting in a `u32`.
pub open spec fn u32_value(v: Option<AttributeView>) -> Option<u32> {
    match v {
        Some(AttributeView::Unsigned(n)) => if n <= u32::MAX {
            Some(n as u32)
        } else {
            None
        },
        _ => None,
    }
}

/// The value of an attribute that is a string.
pub open spec fn text_value(v: Option<AttributeView>) -> Option<Seq<char>> {
    match v {
        Some(AttributeView::Text(s)) => Some(s),
        _ => None,
    }
}

/// Named attribute values, each name once.
#[derive(Debug, Clone, PartialEq)]
pub struct Attributes {
    pub entries: Vec<(String, AttributeValue)>,
}

pub open spec fn attribute_pairs(e: Seq<(String, AttributeValue)>) -> Seq<(Seq<char>, AttributeView)> {
    e.map_values(|p: (String, AttributeValue)| (p.0@, p.1@))
}

impl View for Attributes {
    type V = Map<Seq<char>, AttributeView>;

    open spec fn view(&self) -> Map<Seq<char>, AttributeView> {
        seq_map(attribute_pairs(self.entries@))
    }
}

impl Attributes {
    pub open spec fn wf(&self) -> bool {
        keys_distinct(attribute_pairs(self.entries@))
    }

    /// The value of attribute `name`.
    pub open spec fn get_spec(&self, name: Seq<char>) -> Option<AttributeView> {
        if self@.contains_key(name) {
            Some(self@[name])
        } else {
            None
        }
    }

    pub fn new() -> (r: Self)
        ensures
            r.wf(),
            r@ == Map::<Seq<char>, AttributeView>::empty(),
    {
        let r = Attributes { entries: Vec::new() };
        assert(attribute_pairs(r.entries@) =~= Seq::empty());
        r
    }

    /// The value of attribute `name`, if present.
    pub fn get(&self, name: &str) -> (r: Option<&AttributeValue>)
        requires
            self.wf(),
        ensures
            match self.get_spec(name@) {
                Some(v) => r matches Some(x) && x@ == v,
                None => r is None,
            },
    {
        let ghost pairs = attribute_pairs(self.entries@);
        proof {
            lemma_seq_map(pairs);
        }
        let key = name.to_owned();
        let mut i: usize = 0;
        while i < self.entries.len()
            invariant
                i <= self.entries@.len(),
                key@ == name@,
                self.wf(),
                pairs == attribute_pairs(self.entries@),
                forall|k: int| 0 <= k < i ==> (#[trigger] self.entries@[k]).0@ != name@,
            decreases self.entries@.len() - i,
        {
            if self.entries[i].0 == key {
                proof {
                    lemma_seq_map(pairs);
                    assert(pairs[i as int] == (name@, self.entries@[i as int].1@));
                    assert(has_key(pairs, name@));
                }
                return Some(&self.entries[i].1);
            }
            i = i + 1;
        }
        proof {
            lemma_seq_map(pairs);
            if has_key(pairs, name@) {
                let k = choose|k: int| 0 <= k < pairs.len() && pairs[k].0 == name@;
                assert(self.entries@[k].0@ == name@);
            }
        }
        None
    }

    /// Whether no attribute name occurs twice.
    pub fn distinct_names(&self) -> (b: bool)
        ensures
            b == self.wf(),
    {
        let ghost pairs = attribute_pairs(self.entries@);
        let mut i: usize = 0;
        while i < self.entries.len()
            invariant
                i <= self.entries@.len(),
                pairs == attribute_pairs(self.entries@),
                forall|a: int, b: int| 0 <= a < i && 0 <= b < pairs.len() && a != b ==> pairs[a].0 != pairs[b].0,
            decreases self.entries@.len() - i,
        {
            let mut j: usize = 0;
            while j < self.entries.len()
                invariant
                    i < self.entries@.len(),
                    j <= self.entries@.len(),
                    pairs == attribute_pairs(self.entries@),
                    forall|b: int| 0 <= b < j && b != i ==> pairs[i as int].0 != pairs[b].0,
                decreases self.entries@.len() - j,
            {
                if j != i && same_chars(&chars_of(self.entries[i].0.as_str()), &chars_of(self.entries[j].0.as_str())) {
                    assert(pairs[i as int].0 == pairs[j as int].0);
                    return false;
                }
                j = j + 1;
            }
            i = i + 1;
        }
        true
    }

    /// Whether every attribute of `self` is also an attribute of `other`,
    /// with the same value.
    pub fn included_in(&self, other: &Attributes) -> (r: bool)
        requires
            self.wf(),
            other.wf(),
        ensures
            r == (forall|k: Seq<char>| #[trigger] self@.contains_key(k) ==> other.get_spec(k) == Some(self@[k])),
    {
        proof {
            lemma_seq_map(attribute_pairs(self.entries@));
        }
        let mut i: usize = 0;
        while i < self.entries.len()
            invariant
                i <= self.entries@.len(),
                self.wf(),
                other.wf(),
                forall|k: int| 0 <= k < i ==> other.get_spec(#[trigger] self.entries@[k].0@) == Some(self.entries@[k].1@),
            decreases self.entries@.len() - i,
        {
            let name = self.entries[i].0.as_str();
            let matched = match other.get(name) {
                Some(v) => v.same(&self.entries[i].1),
                None => false,
            };
            if !matched {
                proof {
                    lemma_seq_map(attribute_pairs(self.entries@));
                    let pairs = attribute_pairs(self.entries@);
                    assert(pairs[i as int] == (self.entries@[i as int].0@, self.entries@[i as int].1@));
                    assert(has_key(pairs, self.entries@[i as int].0@));
                    assert(self@[pairs[i as int].0] == pairs[i as int].1);
                    assert(self@.contains_key(pairs[i as int].0));
                    assert(other.get_spec(pairs[i as int].0) != Some(self@[pairs[i as int].0]));
                }
                return false;
            }
            i = i + 1;
        }
        proof {
            lemma_seq_map(attribute_pairs(self.entries@));
            let pairs = attribute_pairs(self.entries@);
            assert forall|k: Seq<char>| #[trigger] self@.contains_key(k) implies other.get_spec(k) == Some(self@[k]) by {
                assert(has_key(pairs, k));
                let j = choose|j: int| 0 <= j < pairs.len() && pairs[j].0 == k;
                assert(self@[pairs[j].0] == pairs[j].1);
                assert(self.entries@[j].0@ == k);
            }
        }
        true
    }

    /// Whether two attribute sets hold the same names with the same values.
    pub fn same(&self, other: &Attributes) -> (r: bool)
        requires
            self.wf(),
            other.wf(),
        ensures
            r == (self@ == other@),
    {
        let a = self.included_in(other);
        let b = other.included_in(self);
        proof {
            if a && b {
                assert forall|k: Seq<char>| #[trigger] self@.contains_key(k) <==> other@.contains_key(k) by {
                    if self@.contains_key(k) {
                        assert(other.get_spec(k) == Some(self@[k]));
                    }
                    if other@.contains_key(k) {
                        assert(self.get_spec(k) == Some(other@[k]));
                    }
                }
                assert forall|k: Seq<char>| #[trigger] self@.contains_key(k) implies self@[k] == other@[k] by {
                    assert(other.get_spec(k) == Some(self@[k]));
                }
                assert(self@ =~= other@);
            }
            if self@ == other@ {
                assert forall|k: Seq<char>| #[trigger] self@.contains_key(k) implies other.get_spec(k) == Some(self@[k]) by {}
                assert forall|k: Seq<char>| #[trigger] other@.contains_key(k) implies self.get_spec(k) == Some(other@[k]) by {}
            }
        }
        a && b
    }
}

/// Who measured a quantity, and how confident it is; the confidence is kept
/// as the bits of its double-precision value.
#[derive(Debug, Clone, PartialEq)]
pub struct EvidenceProvenance {
    pub observer: String,
    pub confidence: u64,
}

/// A measured quantity of an entity, with the evidence for it when the
/// observer gives some; the value is kept as the bits of its double-precision
/// value.
#[derive(Debug, Clone, PartialEq)]
pub struct Measurement {
    pub name: String,
    pub value: u64,
    pub unit: Option<String>,
    pub evidence: Option<EvidenceProvenance>,
}

/// A score that a scoring model gave an entity along one dimension; the value
/// is kept as the bits of its double-precision value.
#[derive(Debug, Clone, PartialEq)]
pub struct Score {
    pub model: ScoreModelId,
    pub dimension: String,
    pub value: u64,
}

pub open spec fn same_unit(a: Option<String>, b: Option<String>) -> bool {
    match (a, b) {
        (Some(x), Some(y)) => x@ == y@,
        (None, None) => true,
        _ => false,
    }
}

pub open spec fn same_evidence(a: Option<EvidenceProvenance>, b: Option<EvidenceProvenance>) -> bool {
    match (a, b) {
        (Some(x), Some(y)) => x.observer@ == y.observer@ && x.confidence == y.confidence,
        (None, None) => true,
        _ => false,
    }
}

pub open spec fn same_measurement(a: Measurement, b: Measurement) -> bool {
    a.name@ == b.name@ && a.value == b.value && same_unit(a.unit, b.unit) && same_evidence(a.evidence, b.evidence)
}

pub open spec fn same_score(a: Score, b: Score) -> bool {
    a.model@ == b.model@ && a.dimension@ == b.dimension@ && a.value == b.value
}

pub open spec fn same_measurements(a: Seq<Measurement>, b: Seq<Measurement>) -> bool {
    a.len() == b.len() && forall|i: int| 0 <= i < a.len() ==> same_measurement(#[trigger] a[i], b[i])
}

pub open spec fn same_scores(a: Seq<Score>, b: Seq<Score>) -> bool {
    a.len() == b.len() && forall|i: int| 0 <= i < a.len() ==> same_score(#[trigger] a[i], b[i])
}

/// Whether two lists of measurements are equal, element by element.
pub fn measurements_equal(a: &Vec<Measurement>, b: &Vec<Measurement>) -> (r: bool)
    ensures
        r == same_measurements(a@, b@),
{
    if a.len() != b.len() {
        return false;
    }
    let mut i: usize = 0;
    while i < a.len()
        invariant
            i <= a@.len(),
            a@.len() == b@.len(),
            forall|k: int| 0 <= k < i ==> same_measurement(#[trigger] a@[k], b@[k]),
        decreases a@.len() - i,
    {
        let x = &a[i];
        let y = &b[i];
        let units = match (&x.unit, &y.unit) {
            (Some(p), Some(q)) => *p == *q,
            (None, None) => true,
            _ => false,
        };
        let evidence = match (&x.evidence, &y.evidence) {
            (Some(p), Some(q)) => p.observer == q.observer && p.confidence == q.confidence,
            (None, None) => true,
            _ => false,
        };
        if !(x.name == y.name && x.value == y.value && units && evidence) {
            return false;
        }
        i = i + 1;
    }
    true
}

/// Whether two lists of scores are equal, element by element.
pub fn scores_equal(a: &Vec<Score>, b: &Vec<Score>) -> (r: bool)
    ensures
        r == same_scores(a@, b@),
{
    if a.len() != b.len() {
        return false;
    }
    let mut i: usize = 0;
    while i < a.len()
        invariant
            i <= a@.len(),
            a@.len() == b@.len(),
            forall|k: int| 0 <= k < i ==> same_score(#[trigger] a@[k], b@[k]),
        decreases a@.len() - i,
    {
        let x = &a[i];
        let y = &b[i];
        if !(x.model.0 == y.model.0 && x.dimension == y.dimension && x.value == y.value) {
            return false;
        }
        i = i + 1;
    }
    true
}

/// What an entity is: its identity, model, kind and label.
#[derive(Debug, Clone, PartialEq)]
pub struct Entity {
    pub id: EntityId,
    pub model: ModelId,
    pub kind: String,
    pub label: String,
}

/// An entity as one snapshot observed it.
#[derive(Debug, Clone, PartialEq)]
pub struct EntityObservation {
    pub snapshot: SnapshotId,
    pub entity: Entity,
    pub attributes: Attributes,
    pub measurements: Vec<Measurement>,
    pub scores: Vec<Score>,
}

/// A directed, kinded link from one entity to another.
#[derive(Debug, Clone, PartialEq)]
pub struct Relation {
    pub id: RelationId,
    pub model: ModelId,
    pub kind: String,
    pub from: EntityId,
    pub to: EntityId,
}

/// A relation as one snapshot observed it; the weight is kept as the bits of
/// its double-precision value.
#[derive(Debug, Clone, PartialEq)]
pub struct RelationObservation {
    pub snapshot: SnapshotId,
    pub relation: Relation,
    pub weight: u64,
    pub attributes: Attributes,
}

pub open spec fn same_entity(a: Entity, b: Entity) -> bool {
    a.id@ == b.id@ && a.model@ == b.model@ && a.kind@ == b.kind@ && a.label@ == b.label@
}

pub open spec fn same_relation(a: Relation, b: Relation) -> bool {
    a.id@ == b.id@ && a.model@ == b.model@ && a.kind@ == b.kind@ && a.from@ == b.from@ && a.to@
        == b.to@
}

impl EntityObservation {
    pub open spec fn wf(&self) -> bool {
        self.attributes.wf()
    }
}

impl RelationObservation {
    pub open spec fn wf(&self) -> bool {
        self.attributes.wf()
    }
}

/// Two observations of an entity say the same thing, whatever snapshot
/// observed them.
pub open spec fn same_entity_content(a: EntityObservation, b: EntityObservation) -> bool {
    &&& same_entity(a.entity, b.entity)
    &&& a.attributes@ == b.attributes@
    &&& same_measurements(a.measurements@, b.measurements@)
    &&& same_scores(a.scores@, b.scores@)
}

/// Two observations of a relation say the same thing, whatever snapshot
/// observed them.
pub open spec fn same_relation_content(a: RelationObservation, b: RelationObservation) -> bool {
    &&& same_relation(a.relation, b.relation)
    &&& a.weight == b.weight
    &&& a.attributes@ == b.attributes@
}

pub fn entity_content_equal(a: &EntityObservation, b: &EntityObservation) -> (r: bool)
    requires
        a.wf(),
        b.wf(),
    ensures
        r == same_entity_content(*a, *b),
{
    let x = &a.entity;
    let y = &b.entity;
    x.id.0 == y.id.0 && x.model.0 == y.model.0 && x.kind == y.kind && x.label == y.label
        && a.attributes.same(&b.attributes) && measurements_equal(&a.measurements, &b.measurements)
        && scores_equal(&a.scores, &b.scores)
}

pub fn relation_content_equal(a: &RelationObservation, b: &RelationObservation) -> (r: bool)
    requires
        a.wf(),
        b.wf(),
    ensures
        r == same_relation_content(*a, *b),
{
    let x = &a.relation;
    let y = &b.relation;
    x.id.0 == y.id.0 && x.model.0 == y.model.0 && x.kind == y.kind && x.from.0 == y.from.0
        && x.to.0 == y.to.0 && a.weight == b.weight && a.attributes.same(&b.attributes)
}

pub open spec fn same_observation(a: EntityObservation, b: EntityObservation) -> bool {
    &&& a.snapshot.world@ == b.snapshot.world@
    &&& a.snapshot.version@ == b.snapshot.version@
    &&& same_entity_content(a, b)
}

pub open spec fn same_relation_observation(a: RelationObservation, b: RelationObservation) -> bool {
    &&& a.snapshot.world@ == b.snapshot.world@
    &&& a.snapshot.version@ == b.snapshot.version@
    &&& same_relation_content(a, b)
}

impl AttributeValue {
    /// A copy of this value.
    pub fn copy(&self) -> (r: Self)
        ensures
            r@ == self@,
    {
        match self {
            AttributeValue::Null => AttributeValue::Null,
            AttributeValue::Bool(b) => AttributeValue::Bool(*b),
            AttributeValue::Unsigned(n) => AttributeValue::Unsigned(*n),
            AttributeValue::Negative(n) => AttributeValue::Negative(*n),
            AttributeValue::Float(bits) => AttributeValue::Float(*bits),
            AttributeValue::Text(t) => AttributeValue::Text(t.clone()),
            AttributeValue::Structured(t) => AttributeValue::Structured(t.clone()),
        }
    }
}

impl Attributes {
    /// A copy of these attributes.
    pub fn copy(&self) -> (r: Self)
        ensures
            attribute_pairs(r.entries@) == attribute_pairs(self.entries@),
            r@ == self@,
            self.wf() ==> r.wf(),
    {
        let mut entries: Vec<(String, AttributeValue)> = Vec::new();
        let mut i: usize = 0;
        while i < self.entries.len()
            invariant
                i <= self.entries@.len(),
                attribute_pairs(entries@) == attribute_pairs(self.entries@.take(i as int)),
            decreases self.entries@.len() - i,
        {
            let ghost before = entries@;
            let name = self.entries[i].0.clone();
            let value = self.entries[i].1.copy();
            entries.push((name, value));
            proof {
                let x = (self.entries@[i as int].0@, self.entries@[i as int].1@);
                assert(attribute_pairs(entries@) =~= attribute_pairs(before).push(x));
                assert(attribute_pairs(self.entries@.take(i + 1)) =~= attribute_pairs(
                    self.entries@.take(i as int),
                ).push(x));
            }
            i = i + 1;
        }
        assert(self.entries@.take(i as int) =~= self.entries@);
        Attributes { entries }
    }
}

fn copy_string_option(o: &Option<String>) -> (r: Option<String>)
    ensures
        same_unit(*o, r),
{
    match o {
        Some(s) => Some(s.clone()),
        None => None,
    }
}

fn copy_measurements(v: &Vec<Measurement>) -> (r: Vec<Measurement>)
    ensures
        same_measurements(v@, r@),
{
    let mut out: Vec<Measurement> = Vec::new();
    let mut i: usize = 0;
    while i < v.len()
        invariant
            i <= v@.len(),
            out@.len() == i,
            forall|k: int| 0 <= k < i ==> same_measurement(#[trigger] v@[k], out@[k]),
        decreases v@.len() - i,
    {
        let m = &v[i];
        let evidence = match &m.evidence {
            Some(e) => Some(EvidenceProvenance { observer: e.observer.clone(), confidence: e.confidence }),
            None => None,
        };
        out.push(Measurement { name: m.name.clone(), value: m.value, unit: copy_string_option(&m.unit), evidence });
        i = i + 1;
    }
    out
}

fn copy_scores(v: &Vec<Score>) -> (r: Vec<Score>)
    ensures
        same_scores(v@, r@),
{
    let mut out: Vec<Score> = Vec::new();
    let mut i: usize = 0;
    while i < v.len()
        invariant
            i <= v@.len(),
            out@.len() == i,
            forall|k: int| 0 <= k < i ==> same_score(#[trigger] v@[k], out@[k]),
        decreases v@.len() - i,
    {
        let m = &v[i];
        out.push(Score { model: ScoreModelId(m.model.0.clone()), dimension: m.dimension.clone(), value: m.value });
        i = i + 1;
    }
    out
}

impl EntityObservation {
    /// A copy of this observation.
    pub fn copy(&self) -> (r: Self)
        ensures
            same_observation(*self, r),
            self.wf() ==> r.wf(),
    {
        EntityObservation {
            snapshot: self.snapshot.duplicate(),
            entity: Entity {
                id: self.entity.id.duplicate(),
                model: ModelId(self.entity.model.0.clone()),
                kind: self.entity.kind.clone(),
                label: self.entity.label.clone(),
            },
            attributes: self.attributes.copy(),
            measurements: copy_measurements(&self.measurements),
            scores: copy_scores(&self.scores),
        }
    }
}

impl RelationObservation {
    /// A copy of this observation.
    pub fn copy(&self) -> (r: Self)
        ensures
            same_relation_observation(*self, r),
            self.wf() ==> r.wf(),
    {
        RelationObservation {
            snapshot: self.snapshot.duplicate(),
            relation: Relation {
                id: RelationId(self.relation.id.0.clone()),
                model: ModelId(self.relation.model.0.clone()),
                kind: self.relation.kind.clone(),
                from: self.relation.from.duplicate(),
                to: self.relation.to.duplicate(),
            },
            weight: self.weight,
            attributes: self.attributes.copy(),
        }
    }
}

/// Saying the same thing is transitive.
pub proof fn lemma_same_observation_transitive(a: EntityObservation, b: EntityObservation, c: EntityObservation)
    requires
        same_observation(a, b),
        same_observation(b, c),
    ensures
        same_observation(a, c),
{
    assert forall|i: int| 0 <= i < a.measurements@.len() implies same_measurement(#[trigger] a.measurements@[i], c.measurements@[i]) by {
        assert(same_measurement(a.measurements@[i], b.measurements@[i]));
        assert(same_measurement(b.measurements@[i], c.measurements@[i]));
    }
    assert forall|i: int| 0 <= i < a.scores@.len() implies same_score(#[trigger] a.scores@[i], c.scores@[i]) by {
        assert(same_score(a.scores@[i], b.scores@[i]));
        assert(same_score(b.scores@[i], c.scores@[i]));
    }
}

/// Saying the same thing is symmetric.
pub proof fn lemma_same_observation_symmetric(a: EntityObservation, b: EntityObservation)
    requires
        same_observation(a, b),
    ensures
        same_observation(b, a),
{
    assert forall|i: int| 0 <= i < b.measurements@.len() implies same_measurement(#[trigger] b.measurements@[i], a.measurements@[i]) by {
        assert(same_measurement(a.measurements@[i], b.measurements@[i]));
    }
    assert forall|i: int| 0 <= i < b.scores@.len() implies same_score(#[trigger] b.scores@[i], a.scores@[i]) by {
        assert(same_score(a.scores@[i], b.scores@[i]));
    }
}

} // verus!
