//! The in-memory store: every snapshot's observations, replaced as a whole
//! when a snapshot is ingested again, and read back by snapshot, entity and
//! relation.
use vstd::prelude::*;

use crate::identity::{EntityId, SnapshotId, WorldId};
use crate::kernel::{EntityObservation, RelationObservation, same_relation_observation};
use crate::maps::{has_key, keys_distinct, lemma_seq_map, lemma_seq_map_insert, lemma_seq_map_update, seq_map};
use crate::model_code::repository_world;
use crate::observation::{AnalysisCoverage, AnalysisDiagnostic, AnalyzerProvenance, ObservationBatch};
use crate::query::{relations_of, touching};
use crate::store::{RelationDirection, StoreError, same_snapshot, snapshot_view};
use crate::text::{chars_of, same_chars};

verus! {

/// The key of a snapshot: its world and version.
pub type SnapshotKey = (Seq<char>, Seq<char>);

/// One snapshot as the store holds it.
#[derive(Debug)]
pub struct StoredSnapshot {
    pub snapshot: SnapshotId,
    pub coverage: AnalysisCoverage,
    pub provenance: Vec<AnalyzerProvenance>,
    pub entities: Vec<EntityObservation>,
    pub relations: Vec<RelationObservation>,
    pub diagnostics: Vec<AnalysisDiagnostic>,
}

/// What a stored snapshot holds.
pub ghost struct StoredView {
    pub coverage: AnalysisCoverage,
    pub provenance: Seq<AnalyzerProvenance>,
    pub entities: Seq<EntityObservation>,
    pub relations: Seq<RelationObservation>,
    pub diagnostics: Seq<AnalysisDiagnostic>,
}

pub open spec fn stored_view(s: StoredSnapshot) -> StoredView {
    StoredView {
        coverage: s.coverage,
        provenance: s.provenance@,
        entities: s.entities@,
        relations: s.relations@,
        diagnostics: s.diagnostics@,
    }
}

pub open spec fn store_pairs(v: Seq<StoredSnapshot>) -> Seq<(SnapshotKey, StoredView)> {
    v.map_values(|s: StoredSnapshot| (snapshot_view(s.snapshot), stored_view(s)))
}

/// Counts that describe a stored snapshot.
#[derive(Debug, Clone, PartialEq, Eq)]
pub struct SnapshotRecord {
    pub snapshot: SnapshotId,
    pub coverage: AnalysisCoverage,
    pub entity_count: usize,
    pub relation_count: usize,
}

/// Every snapshot the store holds, each once.
#[derive(Debug)]
pub struct MemoryStore {
    pub snapshots: Vec<StoredSnapshot>,
}

impl View for MemoryStore {
    type V = Map<SnapshotKey, StoredView>;

    open spec fn view(&self) -> Map<SnapshotKey, StoredView> {
        seq_map(store_pairs(self.snapshots@))
    }
}

// ---------------------------------------------------------------------------
// Which batches a store accepts
// ---------------------------------------------------------------------------
pub open spec fn entities_in(es: Seq<EntityObservation>, k: SnapshotKey) -> bool {
    forall|i: int| 0 <= i < es.len() ==> snapshot_view((#[trigger] es[i]).snapshot) == k
}

pub open spec fn relations_in(rs: Seq<RelationObservation>, k: SnapshotKey) -> bool {
    forall|i: int| 0 <= i < rs.len() ==> snapshot_view((#[trigger] rs[i]).snapshot) == k
}

pub open spec fn entity_ids_distinct(es: Seq<EntityObservation>) -> bool {
    forall|i: int, j: int| 0 <= i < es.len() && 0 <= j < es.len() && i != j ==> (#[trigger] es[i]).entity.id@ != (#[trigger] es[j]).entity.id@
}

pub open spec fn relation_ids_distinct(rs: Seq<RelationObservation>) -> bool {
    forall|i: int, j: int| 0 <= i < rs.len() && 0 <= j < rs.len() && i != j ==> (#[trigger] rs[i]).relation.id@ != (#[trigger] rs[j]).relation.id@
}

pub open spec fn attributes_named_once(es: Seq<EntityObservation>, rs: Seq<RelationObservation>) -> bool {
    &&& forall|i: int| 0 <= i < es.len() ==> (#[trigger] es[i]).wf()
    &&& forall|i: int| 0 <= i < rs.len() ==> (#[trigger] rs[i]).wf()
}

/// Why a batch of the snapshot `k` is refused, if it is: an observation of
/// another snapshot, an attribute named twice, or an entity or relation
/// observed twice.
pub open spec fn batch_problem(k: SnapshotKey, es: Seq<EntityObservation>, rs: Seq<RelationObservation>) -> Option<Seq<char>> {
    if !entities_in(es, k) || !relations_in(rs, k) {
        Some("an observation belongs to a different snapshot"@)
    } else if !attributes_named_once(es, rs) {
        Some("an observation repeats an attribute name"@)
    } else if !entity_ids_distinct(es) {
        Some("an entity is observed twice"@)
    } else if !relation_ids_distinct(rs) {
        Some("a relation is observed twice"@)
    } else {
        None
    }
}

/// The snapshot of a code batch.
pub open spec fn batch_key(b: ObservationBatch<EntityObservation, RelationObservation>) -> SnapshotKey {
    (repository_world(b.revision.repository@), b.revision.commit@)
}

/// What a stored snapshot holds after `b` was ingested.
pub open spec fn batch_stored(b: ObservationBatch<EntityObservation, RelationObservation>) -> StoredView {
    StoredView {
        coverage: b.coverage,
        provenance: b.provenance@,
        entities: b.symbols@,
        relations: b.dependencies@,
        diagnostics: b.diagnostics@,
    }
}

/// The store after ingesting `b`: its snapshot replaced as a whole, or
/// nothing changed when the batch is refused.
pub open spec fn ingest_view(
    m: Map<SnapshotKey, StoredView>,
    b: ObservationBatch<EntityObservation, RelationObservation>,
) -> Map<SnapshotKey, StoredView> {
    if batch_problem(batch_key(b), b.symbols@, b.dependencies@) is None {
        m.insert(batch_key(b), batch_stored(b))
    } else {
        m
    }
}

fn all_entities_in(es: &[EntityObservation], s: &SnapshotId) -> (r: bool)
    ensures
        r == entities_in(es@, snapshot_view(*s)),
{
    let mut i: usize = 0;
    while i < es.len()
        invariant
            i <= es@.len(),
            forall|k: int| 0 <= k < i ==> snapshot_view((#[trigger] es@[k]).snapshot) == snapshot_view(*s),
        decreases es@.len() - i,
    {
        if !same_snapshot(&es[i].snapshot, s) {
            return false;
        }
        i = i + 1;
    }
    true
}

fn all_relations_in(rs: &[RelationObservation], s: &SnapshotId) -> (r: bool)
    ensures
        r == relations_in(rs@, snapshot_view(*s)),
{
    let mut i: usize = 0;
    while i < rs.len()
        invariant
            i <= rs@.len(),
            forall|k: int| 0 <= k < i ==> snapshot_view((#[trigger] rs@[k]).snapshot) == snapshot_view(*s),
        decreases rs@.len() - i,
    {
        if !same_snapshot(&rs[i].snapshot, s) {
            return false;
        }
        i = i + 1;
    }
    true
}

fn all_named_once(es: &[EntityObservation], rs: &[RelationObservation]) -> (r: bool)
    ensures
        r == attributes_named_once(es@, rs@),
{
    let mut i: usize = 0;
    while i < es.len()
        invariant
            i <= es@.len(),
            forall|k: int| 0 <= k < i ==> (#[trigger] es@[k]).wf(),
        decreases es@.len() - i,
    {
        if !es[i].attributes.distinct_names() {
            return false;
        }
        i = i + 1;
    }
    let mut j: usize = 0;
    while j < rs.len()
        invariant
            j <= rs@.len(),
            forall|k: int| 0 <= k < es@.len() ==> (#[trigger] es@[k]).wf(),
            forall|k: int| 0 <= k < j ==> (#[trigger] rs@[k]).wf(),
        decreases rs@.len() - j,
    {
        if !rs[j].attributes.distinct_names() {
            return false;
        }
        j = j + 1;
    }
    true
}

fn distinct_entity_ids(es: &[EntityObservation]) -> (r: bool)
    ensures
        r == entity_ids_distinct(es@),
{
    let mut i: usize = 0;
    while i < es.len()
        invariant
            i <= es@.len(),
            forall|a: int, b: int| 0 <= a < i && 0 <= b < es@.len() && a != b ==> (#[trigger] es@[a]).entity.id@ != (#[trigger] es@[b]).entity.id@,
        decreases es@.len() - i,
    {
        let mut j: usize = 0;
        while j < es.len()
            invariant
                i < es@.len(),
                j <= es@.len(),
                forall|a: int, b: int| 0 <= a < i && 0 <= b < es@.len() && a != b ==> (#[trigger] es@[a]).entity.id@ != (#[trigger] es@[b]).entity.id@,
                forall|b: int| 0 <= b < j && b != i ==> es@[i as int].entity.id@ != (#[trigger] es@[b]).entity.id@,
            decreases es@.len() - j,
        {
            if j != i && same_chars(&chars_of(es[i].entity.id.as_str()), &chars_of(es[j].entity.id.as_str())) {
                return false;
            }
            j = j + 1;
        }
        i = i + 1;
    }
    true
}

fn distinct_relation_ids(rs: &[RelationObservation]) -> (r: bool)
    ensures
        r == relation_ids_distinct(rs@),
{
    let mut i: usize = 0;
    while i < rs.len()
        invariant
            i <= rs@.len(),
            forall|a: int, b: int| 0 <= a < i && 0 <= b < rs@.len() && a != b ==> (#[trigger] rs@[a]).relation.id@ != (#[trigger] rs@[b]).relation.id@,
        decreases rs@.len() - i,
    {
        let mut j: usize = 0;
        while j < rs.len()
            invariant
                i < rs@.len(),
                j <= rs@.len(),
                forall|a: int, b: int| 0 <= a < i && 0 <= b < rs@.len() && a != b ==> (#[trigger] rs@[a]).relation.id@ != (#[trigger] rs@[b]).relation.id@,
                forall|b: int| 0 <= b < j && b != i ==> rs@[i as int].relation.id@ != (#[trigger] rs@[b]).relation.id@,
            decreases rs@.len() - j,
        {
            if j != i && same_chars(&chars_of(rs[i].relation.id.as_str()), &chars_of(rs[j].relation.id.as_str())) {
                return false;
            }
            j = j + 1;
        }
        i = i + 1;
    }
    true
}

/// Checks a batch of the snapshot `s`.
pub fn validate_batch(s: &SnapshotId, es: &[EntityObservation], rs: &[RelationObservation]) -> (r: Result<(), StoreError>)
    ensures
        match batch_problem(snapshot_view(*s), es@, rs@) {
            Some(m) => r matches Err(StoreError::InconsistentBatch(e)) && e@ == m,
            None => r is Ok,
        },
{
    if !all_entities_in(es, s) || !all_relations_in(rs, s) {
        return Err(StoreError::InconsistentBatch("an observation belongs to a different snapshot".to_owned()));
    }
    if !all_named_once(es, rs) {
        return Err(StoreError::InconsistentBatch("an observation repeats an attribute name".to_owned()));
    }
    if !distinct_entity_ids(es) {
        return Err(StoreError::InconsistentBatch("an entity is observed twice".to_owned()));
    }
    if !distinct_relation_ids(rs) {
        return Err(StoreError::InconsistentBatch("a relation is observed twice".to_owned()));
    }
    Ok(())
}

// ---------------------------------------------------------------------------
// The store
// ---------------------------------------------------------------------------
/// The entities a store holds for a snapshot, none when it holds no such
/// snapshot.
pub open spec fn entities_at(m: Map<SnapshotKey, StoredView>, k: SnapshotKey) -> Seq<EntityObservation> {
    if m.contains_key(k) {
        m[k].entities
    } else {
        Seq::empty()
    }
}

/// The relations a store holds for a snapshot.
pub open spec fn relations_at(m: Map<SnapshotKey, StoredView>, k: SnapshotKey) -> Seq<RelationObservation> {
    if m.contains_key(k) {
        m[k].relations
    } else {
        Seq::empty()
    }
}

/// The position of the first entity with the given identifier.
pub open spec fn first_with_id(es: Seq<EntityObservation>, id: Seq<char>) -> Option<int>
    decreases es.len(),
{
    if es.len() == 0 {
        None
    } else if first_with_id(es.drop_last(), id) is Some {
        first_with_id(es.drop_last(), id)
    } else if es.last().entity.id@ == id {
        Some(es.len() - 1)
    } else {
        None
    }
}

/// The stored snapshot at a key, if any.
fn position_of(v: &Vec<StoredSnapshot>, s: &SnapshotId) -> (r: Option<usize>)
    ensures
        match r {
            Some(i) => i < v@.len() && snapshot_view(v@[i as int].snapshot) == snapshot_view(*s),
            None => !has_key(store_pairs(v@), snapshot_view(*s)),
        },
{
    let mut i: usize = 0;
    while i < v.len()
        invariant
            i <= v@.len(),
            forall|k: int| 0 <= k < i ==> snapshot_view((#[trigger] v@[k]).snapshot) != snapshot_view(*s),
        decreases v@.len() - i,
    {
        if same_snapshot(&v[i].snapshot, s) {
            return Some(i);
        }
        i = i + 1;
    }
    proof {
        if has_key(store_pairs(v@), snapshot_view(*s)) {
            let k = choose|k: int| 0 <= k < store_pairs(v@).len() && store_pairs(v@)[k].0 == snapshot_view(*s);
            assert(snapshot_view(v@[k].snapshot) == snapshot_view(*s));
        }
    }
    None
}

impl MemoryStore {
    pub open spec fn wf(&self) -> bool {
        &&& keys_distinct(store_pairs(self.snapshots@))
        &&& forall|k: SnapshotKey| #[trigger] self@.contains_key(k) ==> batch_problem(k, self@[k].entities, self@[k].relations) is None
    }

    /// A store that holds nothing.
    pub fn new() -> (s: Self)
        ensures
            s.wf(),
            s@ == Map::<SnapshotKey, StoredView>::empty(),
    {
        let s = MemoryStore { snapshots: Vec::new() };
        assert(store_pairs(s.snapshots@) =~= Seq::empty());
        s
    }

    /// Stores a batch, replacing what its snapshot held; a refused batch
    /// changes nothing.
    pub fn ingest(&mut self, batch: ObservationBatch<EntityObservation, RelationObservation>) -> (r: Result<(), StoreError>)
        requires
            old(self).wf(),
        ensures
            final(self).wf(),
            final(self)@ == ingest_view(old(self)@, batch),
            match batch_problem(batch_key(batch), batch.symbols@, batch.dependencies@) {
                Some(m) => r matches Err(StoreError::InconsistentBatch(e)) && e@ == m,
                None => r is Ok,
            },
    {
        let snapshot = batch.revision.snapshot();
        match validate_batch(&snapshot, batch.symbols.as_slice(), batch.dependencies.as_slice()) {
            Err(e) => return Err(e),
            Ok(()) => {},
        }
        let ghost pairs = store_pairs(self.snapshots@);
        let ghost k = batch_key(batch);
        let ghost stored = batch_stored(batch);
        let record = StoredSnapshot {
            snapshot: snapshot.duplicate(),
            coverage: batch.coverage,
            provenance: batch.provenance,
            entities: batch.symbols,
            relations: batch.dependencies,
            diagnostics: batch.diagnostics,
        };
        assert(stored_view(record) == stored);
        assert(snapshot_view(record.snapshot) == k);
        match position_of(&self.snapshots, &snapshot) {
            Some(i) => {
                proof {
                    lemma_seq_map_update(pairs, i as int, stored);
                }
                self.snapshots.set(i, record);
                assert(store_pairs(self.snapshots@) =~= pairs.update(i as int, (pairs[i as int].0, stored)));
            },
            None => {
                proof {
                    lemma_seq_map_insert(pairs, pairs.len() as int, (k, stored));
                }
                self.snapshots.push(record);
                assert(store_pairs(self.snapshots@) =~= pairs.insert(pairs.len() as int, (k, stored)));
            },
        }
        Ok(())
    }

    /// The stored snapshot `s`.
    pub fn snapshot(&self, s: &SnapshotId) -> (r: Option<&StoredSnapshot>)
        requires
            self.wf(),
        ensures
            self@.contains_key(snapshot_view(*s)) ==> (r matches Some(x) && stored_view(*x) == self@[snapshot_view(*s)]
                && snapshot_view(x.snapshot) == snapshot_view(*s)),
            !self@.contains_key(snapshot_view(*s)) ==> r is None,
    {
        proof {
            lemma_seq_map(store_pairs(self.snapshots@));
        }
        match position_of(&self.snapshots, s) {
            Some(i) => {
                assert(store_pairs(self.snapshots@)[i as int] == (snapshot_view(*s), stored_view(self.snapshots@[i as int])));
                Some(&self.snapshots[i])
            },
            None => None,
        }
    }

    /// The record of stored snapshot `s`, if the store holds it.
    pub fn record(&self, s: &SnapshotId) -> (r: Option<SnapshotRecord>)
        requires
            self.wf(),
        ensures
            r is Some <==> self@.contains_key(snapshot_view(*s)),
            r matches Some(x) ==> record_view(x) == (
                snapshot_view(*s),
                self@[snapshot_view(*s)].coverage,
                self@[snapshot_view(*s)].entities.len(),
                self@[snapshot_view(*s)].relations.len(),
            ),
    {
        match self.snapshot(s) {
            Some(held) => Some(SnapshotRecord {
                snapshot: held.snapshot.duplicate(),
                coverage: held.coverage,
                entity_count: held.entities.len(),
                relation_count: held.relations.len(),
            }),
            None => None,
        }
    }

    /// The entities of snapshot `s`, in the order they were ingested.
    pub fn entities(&self, s: &SnapshotId) -> (r: &[EntityObservation])
        requires
            self.wf(),
        ensures
            r@ == entities_at(self@, snapshot_view(*s)),
    {
        match self.snapshot(s) {
            Some(x) => x.entities.as_slice(),
            None => &[],
        }
    }

    /// The relations of snapshot `s`, in the order they were ingested.
    pub fn relations(&self, s: &SnapshotId) -> (r: &[RelationObservation])
        requires
            self.wf(),
        ensures
            r@ == relations_at(self@, snapshot_view(*s)),
    {
        match self.snapshot(s) {
            Some(x) => x.relations.as_slice(),
            None => &[],
        }
    }

    /// The entity `id` of snapshot `s`.
    pub fn entity(&self, s: &SnapshotId, id: &EntityId) -> (r: Option<&EntityObservation>)
        requires
            self.wf(),
        ensures
            match first_with_id(entities_at(self@, snapshot_view(*s)), id@) {
                Some(i) => r matches Some(e) && *e == entities_at(self@, snapshot_view(*s))[i],
                None => r is None,
            },
    {
        let es = self.entities(s);
        let ghost all = es@;
        let mut i: usize = 0;
        while i < es.len()
            invariant
                i <= es@.len(),
                all == es@,
                all == entities_at(self@, snapshot_view(*s)),
                first_with_id(all.take(i as int), id@) is None,
            decreases es@.len() - i,
        {
            assert(all.take(i + 1).drop_last() =~= all.take(i as int));
            if same_chars(&chars_of(es[i].entity.id.as_str()), &chars_of(id.as_str())) {
                proof {
                    assert(all.take(i + 1).last() == all[i as int]);
                    assert(first_with_id(all.take(i + 1), id@) == Some(i as int));
                    lemma_first_with_id_extends(all, i as int + 1, id@);
                }
                return Some(&es[i]);
            }
            i = i + 1;
        }
        assert(all.take(i as int) =~= all);
        None
    }

    /// The relations of snapshot `s` that touch `entity` in a direction.
    pub fn relations_touching(&self, s: &SnapshotId, entity: &EntityId, direction: RelationDirection) -> (r: Vec<RelationObservation>)
        requires
            self.wf(),
        ensures
            r@.len() == touching(relations_at(self@, snapshot_view(*s)), entity@, direction).len(),
            forall|i: int| 0 <= i < r@.len() ==> same_relation_observation(touching(relations_at(self@, snapshot_view(*s)), entity@, direction)[i], #[trigger] r@[i]),
    {
        let rs = self.relations(s);
        proof {
            if self@.contains_key(snapshot_view(*s)) {
                assert(batch_problem(snapshot_view(*s), self@[snapshot_view(*s)].entities, self@[snapshot_view(*s)].relations) is None);
            }
        }
        relations_of(rs, entity, direction)
    }

    /// Records of the stored snapshots of a world (of every world when none
    /// is given), in the order they were first stored.
    pub fn snapshots(&self, world: Option<&WorldId>) -> (r: Vec<SnapshotRecord>)
        ensures
            r@.map_values(|x: SnapshotRecord| record_view(x)) == listed(self.snapshots@, match world {
                Some(w) => Some(w@),
                None => None,
            }),
    {
        let ghost wanted = match world {
            Some(w) => Some(w@),
            None => None::<Seq<char>>,
        };
        let mut out: Vec<SnapshotRecord> = Vec::new();
        let mut i: usize = 0;
        while i < self.snapshots.len()
            invariant
                i <= self.snapshots@.len(),
                wanted == match world {
                    Some(w) => Some(w@),
                    None => None::<Seq<char>>,
                },
                out@.map_values(|x: SnapshotRecord| record_view(x)) == listed(self.snapshots@.take(i as int), wanted),
            decreases self.snapshots@.len() - i,
        {
            assert(self.snapshots@.take(i + 1).drop_last() =~= self.snapshots@.take(i as int));
            assert(self.snapshots@.take(i + 1).last() == self.snapshots@[i as int]);
            let held = &self.snapshots[i];
            let keep = match world {
                Some(w) => same_chars(&chars_of(held.snapshot.world.as_str()), &chars_of(w.as_str())),
                None => true,
            };
            if keep {
                let ghost before = out@;
                out.push(SnapshotRecord {
                    snapshot: held.snapshot.duplicate(),
                    coverage: held.coverage,
                    entity_count: held.entities.len(),
                    relation_count: held.relations.len(),
                });
                assert(out@.map_values(|x: SnapshotRecord| record_view(x)) =~= before.map_values(|x: SnapshotRecord| record_view(x)).push(record_view(out@.last())));
            }
            i = i + 1;
        }
        assert(self.snapshots@.take(i as int) =~= self.snapshots@);
        out
    }
}

/// What a record says: the snapshot, its coverage and how many entities and
/// relations it holds.
pub open spec fn record_view(r: SnapshotRecord) -> (SnapshotKey, AnalysisCoverage, nat, nat) {
    (snapshot_view(r.snapshot), r.coverage, r.entity_count as nat, r.relation_count as nat)
}

/// The records of the stored snapshots of a world (of every world for none).
pub open spec fn listed(v: Seq<StoredSnapshot>, world: Option<Seq<char>>) -> Seq<(SnapshotKey, AnalysisCoverage, nat, nat)>
    decreases v.len(),
{
    if v.len() == 0 {
        Seq::empty()
    } else {
        let rest = listed(v.drop_last(), world);
        let s = v.last();
        if match world {
            Some(w) => s.snapshot.world@ == w,
            None => true,
        } {
            rest.push((snapshot_view(s.snapshot), s.coverage, s.entities@.len(), s.relations@.len()))
        } else {
            rest
        }
    }
}

proof fn lemma_first_with_id_extends(es: Seq<EntityObservation>, k: int, id: Seq<char>)
    requires
        0 <= k <= es.len(),
        first_with_id(es.take(k), id) is Some,
    ensures
        first_with_id(es, id) == first_with_id(es.take(k), id),
    decreases es.len() - k,
{
    if k < es.len() {
        assert(es.take(k + 1).drop_last() =~= es.take(k));
        lemma_first_with_id_extends(es, k + 1, id);
    } else {
        assert(es.take(k) =~= es);
    }
}

// ---------------------------------------------------------------------------
// Laws
// ---------------------------------------------------------------------------
/// A read gives back what the last accepted write of that snapshot wrote,
/// and ingesting one snapshot leaves every other snapshot as it was.
pub proof fn law_read_after_write(
    m: Map<SnapshotKey, StoredView>,
    b: ObservationBatch<EntityObservation, RelationObservation>,
    other: SnapshotKey,
)
    requires
        batch_problem(batch_key(b), b.symbols@, b.dependencies@) is None,
    ensures
        entities_at(ingest_view(m, b), batch_key(b)) == b.symbols@,
        relations_at(ingest_view(m, b), batch_key(b)) == b.dependencies@,
        other != batch_key(b) ==> entities_at(ingest_view(m, b), other) == entities_at(m, other),
        other != batch_key(b) ==> relations_at(ingest_view(m, b), other) == relations_at(m, other),
{
}

/// A refused batch leaves the store as it was, so the previous snapshot stays
/// readable.
pub proof fn law_refused_batch_keeps_the_store(
    m: Map<SnapshotKey, StoredView>,
    b: ObservationBatch<EntityObservation, RelationObservation>,
)
    requires
        batch_problem(batch_key(b), b.symbols@, b.dependencies@) is Some,
    ensures
        ingest_view(m, b) == m,
{
}

/// Ingesting the same batch twice is the same as ingesting it once.
pub proof fn law_reingest_is_idempotent(
    m: Map<SnapshotKey, StoredView>,
    b: ObservationBatch<EntityObservation, RelationObservation>,
)
    ensures
        ingest_view(ingest_view(m, b), b) == ingest_view(m, b),
{
    if batch_problem(batch_key(b), b.symbols@, b.dependencies@) is None {
        assert(ingest_view(ingest_view(m, b), b) =~= ingest_view(m, b));
    }
}

/// A replacement batch removes what it no longer observes: an entity that the
/// accepted batch lacks is not found in its snapshot afterwards.
pub proof fn law_replacement_drops_omitted_entities(
    m: Map<SnapshotKey, StoredView>,
    b: ObservationBatch<EntityObservation, RelationObservation>,
    id: Seq<char>,
)
    requires
        batch_problem(batch_key(b), b.symbols@, b.dependencies@) is None,
        forall|i: int| 0 <= i < b.symbols@.len() ==> (#[trigger] b.symbols@[i]).entity.id@ != id,
    ensures
        first_with_id(entities_at(ingest_view(m, b), batch_key(b)), id) is None,
{
    lemma_first_with_id_absent(b.symbols@, id);
}

proof fn lemma_first_with_id_absent(es: Seq<EntityObservation>, id: Seq<char>)
    requires
        forall|i: int| 0 <= i < es.len() ==> (#[trigger] es[i]).entity.id@ != id,
    ensures
        first_with_id(es, id) is None,
    decreases es.len(),
{
    if es.len() > 0 {
        let t = es.drop_last();
        assert forall|i: int| 0 <= i < t.len() implies (#[trigger] t[i]).entity.id@ != id by {
            assert(t[i] == es[i]);
        }
        lemma_first_with_id_absent(t, id);
        assert(es.last() == es[es.len() - 1]);
    }
}

} // verus!
