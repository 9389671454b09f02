use detamu::identity::{EntityId, ModelId, RelationId, SnapshotId, WorldId};
use detamu::kernel::{AttributeValue, Attributes, Entity, EntityObservation, Relation, RelationObservation};
use detamu::memory::MemoryStore;
use detamu::model_code::RevisionId;
use detamu::observation::{AnalysisCoverage, ObservationBatch};
use detamu::store::{RelationDirection, StoreError};

type Batch = ObservationBatch<EntityObservation, RelationObservation>;

fn entity(snapshot: &SnapshotId, id: &str, line: u64) -> EntityObservation {
    EntityObservation {
        snapshot: snapshot.clone(),
        entity: Entity {
            id: EntityId::new(id),
            model: ModelId::new("code"),
            kind: "function".to_owned(),
            label: id.to_owned(),
        },
        attributes: Attributes {
            entries: vec![
                ("file_path".to_owned(), AttributeValue::Text("src/lib.rs".to_owned())),
                ("line_start".to_owned(), AttributeValue::Unsigned(line)),
            ],
        },
        measurements: Vec::new(),
        scores: Vec::new(),
    }
}

fn calls(snapshot: &SnapshotId, from: &str, to: &str) -> RelationObservation {
    RelationObservation {
        snapshot: snapshot.clone(),
        relation: Relation {
            id: RelationId::new(&format!("{from}:calls:{to}")),
            model: ModelId::new("code"),
            kind: "calls".to_owned(),
            from: EntityId::new(from),
            to: EntityId::new(to),
        },
        weight: 0.7f64.to_bits(),
        attributes: Attributes::new(),
    }
}

fn fixture() -> Batch {
    let revision = RevisionId::new("detamu", "abc123");
    let snapshot = revision.snapshot();
    let mut batch = Batch::empty(revision);
    batch.coverage = AnalysisCoverage::Complete;
    batch.symbols = vec![entity(&snapshot, "rust:detamu::index", 10), entity(&snapshot, "rust:detamu::store", 30)];
    batch.dependencies = vec![calls(&snapshot, "rust:detamu::index", "rust:detamu::store")];
    batch
}

#[test]
fn memory_store_implements_the_store_contract() {
    let mut store = MemoryStore::new();
    let batch = fixture();
    let snapshot = batch.revision.snapshot();
    let first = batch.symbols[0].clone();
    let source = first.entity.id.clone();
    let target = batch.symbols[1].entity.id.clone();
    let symbols = batch.symbols.clone();
    let dependencies = batch.dependencies.clone();
    store.ingest(batch).expect("ingest fixture");

    assert_eq!(store.entities(&snapshot), symbols.as_slice());
    assert_eq!(store.relations(&snapshot), dependencies.as_slice());
    assert_eq!(store.entity(&snapshot, &source), Some(&first));
    assert_eq!(store.relations_touching(&snapshot, &source, RelationDirection::Outgoing), dependencies);
    assert_eq!(store.relations_touching(&snapshot, &target, RelationDirection::Incoming).len(), 1);
    assert!(store.relations_touching(&snapshot, &target, RelationDirection::Outgoing).is_empty());
    let records = store.snapshots(Some(&WorldId::new("code.repository:detamu")));
    assert_eq!(records.len(), 1);
    assert_eq!(records[0].entity_count, 2);
    assert_eq!(records[0].relation_count, 1);
    assert_eq!(records[0].coverage, AnalysisCoverage::Complete);
    assert!(store.snapshots(Some(&WorldId::new("code.repository:other"))).is_empty());

    let mut replacement = fixture();
    replacement.symbols.remove(0);
    replacement.dependencies.clear();
    store.ingest(replacement).expect("replace snapshot");
    assert_eq!(store.entity(&snapshot, &source), None);
    assert_eq!(store.snapshot(&snapshot).expect("snapshot record").entities.len(), 1);
    assert_eq!(store.snapshots(None).len(), 1);
}

#[test]
fn rejected_reindex_preserves_the_previous_snapshot() {
    let mut store = MemoryStore::new();
    let batch = fixture();
    let snapshot = batch.revision.snapshot();
    let first = batch.symbols[0].clone();
    store.ingest(batch).expect("initial ingest");
    let mut invalid = fixture();
    invalid.symbols.push(first.clone());
    match store.ingest(invalid) {
        Err(StoreError::InconsistentBatch(m)) => assert_eq!(m, "an entity is observed twice"),
        other => panic!("unexpected {other:?}"),
    }
    assert_eq!(store.entity(&snapshot, &first.entity.id), Some(&first));
}

#[test]
fn stores_symbols_by_exact_revision() {
    let mut store = MemoryStore::new();
    let batch = fixture();
    let snapshot = batch.revision.snapshot();
    let observation = batch.symbols[0].clone();
    store.ingest(batch).expect("batch should ingest");
    assert_eq!(store.entity(&snapshot, &observation.entity.id), Some(&observation));
    let other = RevisionId::new("detamu", "def456").snapshot();
    assert_eq!(store.entity(&other, &observation.entity.id), None);
    assert!(store.entities(&other).is_empty());
}

#[test]
fn observations_of_another_snapshot_are_refused() {
    let mut store = MemoryStore::new();
    let mut batch = fixture();
    let elsewhere = RevisionId::new("detamu", "zzz").snapshot();
    batch.dependencies.push(calls(&elsewhere, "a", "b"));
    match store.ingest(batch) {
        Err(StoreError::InconsistentBatch(m)) => assert_eq!(m, "an observation belongs to a different snapshot"),
        other => panic!("unexpected {other:?}"),
    }
    assert!(store.snapshots(None).is_empty());
}

#[test]
fn ingesting_the_same_batch_twice_keeps_one_snapshot() {
    let mut store = MemoryStore::new();
    store.ingest(fixture()).expect("first");
    store.ingest(fixture()).expect("second");
    let records = store.snapshots(None);
    assert_eq!(records.len(), 1);
    assert_eq!(records[0].entity_count, 2);
}

#[test]
fn the_record_of_a_snapshot_counts_what_it_holds() {
    let mut store = MemoryStore::new();
    let batch = fixture();
    let snapshot = batch.revision.snapshot();
    assert!(store.record(&snapshot).is_none());
    store.ingest(batch).expect("ingest fixture");
    let record = store.record(&snapshot).expect("stored snapshot");
    assert_eq!(record.snapshot, snapshot);
    assert_eq!((record.entity_count, record.relation_count), (2, 1));
    assert_eq!(record.coverage, AnalysisCoverage::Complete);
    assert!(store.record(&SnapshotId::new("code.repository:detamu", "other")).is_none());
}
