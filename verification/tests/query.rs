use detamu::identity::{EntityId, ModelId, RelationId, SnapshotId};
use detamu::kernel::{AttributeValue, Attributes, Entity, EntityObservation, Relation, RelationObservation};
use detamu::query::{
    diff, find_entities, from_store, same_world, traverse, walk_step, EntityFilter, GraphRequest, QueryError, WalkAction,
    WalkEvent, WalkStage,
};
use detamu::store::StoreError;
use detamu::store::RelationDirection;

fn attributes(pairs: &[(&str, AttributeValue)]) -> Attributes {
    Attributes {
        entries: pairs
            .iter()
            .map(|(name, value)| (name.to_string(), value.clone()))
            .collect(),
    }
}

fn entity(snapshot: &SnapshotId, id: &str, label: &str) -> EntityObservation {
    EntityObservation {
        snapshot: snapshot.clone(),
        entity: Entity {
            id: EntityId::new(id),
            model: ModelId::new("code"),
            kind: "function".to_owned(),
            label: label.to_owned(),
        },
        attributes: attributes(&[("file_path", AttributeValue::Text("src/lib.rs".to_owned()))]),
        measurements: Vec::new(),
        scores: Vec::new(),
    }
}

fn relation(snapshot: &SnapshotId, from: &str, to: &str) -> RelationObservation {
    RelationObservation {
        snapshot: snapshot.clone(),
        relation: Relation {
            id: RelationId::new(&format!("{from}:calls:{to}")),
            model: ModelId::new("code"),
            kind: "calls".to_owned(),
            from: EntityId::new(from),
            to: EntityId::new(to),
        },
        weight: 1.0f64.to_bits(),
        attributes: Attributes::new(),
    }
}

struct Fixture {
    first: SnapshotId,
    second: SnapshotId,
    first_entities: Vec<EntityObservation>,
    first_relations: Vec<RelationObservation>,
    second_entities: Vec<EntityObservation>,
    second_relations: Vec<RelationObservation>,
}

fn fixture() -> Fixture {
    let first = SnapshotId::new("code.repository:fixture", "v1");
    let second = SnapshotId::new("code.repository:fixture", "v2");
    Fixture {
        first_entities: vec![
            entity(&first, "a", "alpha"),
            entity(&first, "b", "beta"),
            entity(&first, "c", "gamma"),
        ],
        first_relations: vec![
            relation(&first, "a", "b"),
            relation(&first, "b", "c"),
            relation(&first, "c", "a"),
        ],
        second_entities: vec![
            entity(&second, "a", "alpha"),
            entity(&second, "b", "beta changed"),
            entity(&second, "d", "delta"),
        ],
        second_relations: vec![relation(&second, "a", "b"), relation(&second, "a", "d")],
        first,
        second,
    }
}

#[test]
fn filters_entities_by_domain_fields_and_attributes() {
    let f = fixture();
    let matches = find_entities(
        &f.first_entities,
        &EntityFilter {
            model: Some("code".to_owned()),
            kind: Some("function".to_owned()),
            label_contains: Some("alpha".to_owned()),
            attributes: attributes(&[("file_path", AttributeValue::Text("src/lib.rs".to_owned()))]),
            limit: None,
        },
    );

    assert_eq!(matches.len(), 1);
    assert_eq!(matches[0].entity.id.as_str(), "a");
}

#[test]
fn filter_matches_labels_ignoring_case_and_honours_the_limit() {
    let f = fixture();
    let filter = EntityFilter {
        model: None,
        kind: None,
        label_contains: Some("A".to_owned()),
        attributes: Attributes::new(),
        limit: Some(2),
    };
    let matches = find_entities(&f.first_entities, &filter);
    assert_eq!(matches.len(), 2);
    assert_eq!(matches[0].entity.id.as_str(), "a");
    assert_eq!(matches[1].entity.id.as_str(), "b");
}

#[test]
fn traversal_is_bounded_and_cycle_safe() {
    let f = fixture();
    let graph = traverse(
        &f.first,
        &f.first_entities,
        &f.first_relations,
        &GraphRequest {
            root: EntityId::new("a"),
            direction: RelationDirection::Outgoing,
            max_depth: 10,
            max_nodes: 10,
            relation_kinds: vec!["calls".to_owned()],
        },
    )
    .expect("traverse graph");

    assert_eq!(graph.nodes.len(), 3);
    assert_eq!(graph.relations.len(), 3);
    assert!(!graph.truncated);
    assert_eq!(
        graph.nodes.iter().map(|node| node.depth).collect::<Vec<_>>(),
        [0, 1, 2]
    );
}

#[test]
fn traversal_stops_at_the_node_limit_and_says_so() {
    let f = fixture();
    let graph = traverse(
        &f.first,
        &f.first_entities,
        &f.first_relations,
        &GraphRequest {
            root: EntityId::new("a"),
            direction: RelationDirection::Outgoing,
            max_depth: 10,
            max_nodes: 2,
            relation_kinds: Vec::new(),
        },
    )
    .expect("traverse graph");
    assert_eq!(graph.nodes.len(), 2);
    assert!(graph.truncated);
    for relation in &graph.relations {
        for end in [&relation.relation.from, &relation.relation.to] {
            assert!(graph.nodes.iter().any(|node| &node.observation.entity.id == end));
        }
    }
}

#[test]
fn traversal_rejects_a_zero_node_limit_and_a_missing_root() {
    let f = fixture();
    let request = |root: &str, max_nodes: usize| GraphRequest {
        root: EntityId::new(root),
        direction: RelationDirection::Both,
        max_depth: 1,
        max_nodes,
        relation_kinds: Vec::new(),
    };
    assert!(matches!(
        traverse(&f.first, &f.first_entities, &f.first_relations, &request("a", 0)),
        Err(QueryError::InvalidNodeLimit)
    ));
    assert!(matches!(
        traverse(&f.first, &f.first_entities, &f.first_relations, &request("zzz", 5)),
        Err(QueryError::EntityNotFound { .. })
    ));
}

#[test]
fn diff_ignores_snapshot_identity_and_reports_content_changes() {
    let f = fixture();
    let diff = diff(
        &f.first,
        &f.second,
        &f.first_entities,
        &f.second_entities,
        &f.first_relations,
        &f.second_relations,
    )
    .expect("diff snapshots");

    assert_eq!(diff.added_entities.len(), 1);
    assert_eq!(diff.added_entities[0].entity.id.as_str(), "d");
    assert_eq!(diff.removed_entities.len(), 1);
    assert_eq!(diff.removed_entities[0].entity.id.as_str(), "c");
    assert_eq!(diff.changed_entities.len(), 1);
    assert_eq!(diff.changed_entities[0].id.as_str(), "b");
    assert_eq!(diff.added_relations.len(), 1);
    assert_eq!(diff.removed_relations.len(), 2);
    assert!(diff.changed_relations.is_empty());
}

#[test]
fn diff_of_a_snapshot_with_itself_is_empty() {
    let f = fixture();
    let same = diff(
        &f.first,
        &f.first,
        &f.first_entities,
        &f.first_entities,
        &f.first_relations,
        &f.first_relations,
    )
    .expect("diff snapshot with itself");
    assert!(same.added_entities.is_empty());
    assert!(same.removed_entities.is_empty());
    assert!(same.changed_entities.is_empty());
    assert!(same.added_relations.is_empty());
    assert!(same.removed_relations.is_empty());
}

#[test]
fn diff_refuses_snapshots_of_different_worlds() {
    let f = fixture();
    let other = SnapshotId::new("code.repository:other", "v1");
    assert!(matches!(
        diff(&f.first, &other, &[], &[], &[], &[]),
        Err(QueryError::DifferentWorlds)
    ));
}

#[test]
fn a_stored_walk_checks_the_node_limit_before_reading() {
    let (stage, action) = walk_step(&EntityId::new("a"), 0, WalkStage::Start, WalkEvent::Begin);
    assert!(matches!(stage, WalkStage::Start));
    assert!(matches!(action, WalkAction::Fail(QueryError::InvalidNodeLimit)));
    let (_, action) = walk_step(&EntityId::new("a"), 3, WalkStage::Start, WalkEvent::Begin);
    assert!(matches!(action, WalkAction::ReadEntities));
}

#[test]
fn a_stored_walk_checks_the_root_before_reading_relations() {
    let f = fixture();
    let (_, action) = walk_step(&EntityId::new("missing"), 3, WalkStage::Start, WalkEvent::EntitiesRead(Ok(f.first_entities.clone())));
    match action {
        WalkAction::Fail(QueryError::EntityNotFound { entity }) => assert_eq!(entity.as_str(), "missing"),
        _ => panic!("a missing root ends the walk"),
    }
    let (stage, action) = walk_step(&EntityId::new("a"), 3, WalkStage::Start, WalkEvent::EntitiesRead(Ok(f.first_entities.clone())));
    assert!(matches!(action, WalkAction::ReadRelations));
    let (_, action) = walk_step(&EntityId::new("a"), 3, stage, WalkEvent::RelationsRead(Ok(f.first_relations.clone())));
    match action {
        WalkAction::Walk(entities, relations) => {
            assert_eq!(entities, f.first_entities);
            assert_eq!(relations, f.first_relations);
        },
        _ => panic!("both reads succeeded"),
    }
}

#[test]
fn a_stored_walk_ends_with_the_store_error() {
    let (_, action) = walk_step(&EntityId::new("a"), 3, WalkStage::Start, WalkEvent::EntitiesRead(Err(StoreError::Backend("down".to_owned()))));
    match action {
        WalkAction::Fail(error) => assert_eq!(error.message(), "store operation failed: down"),
        _ => panic!("a failed read ends the walk"),
    }
    let f = fixture();
    let (_, action) = walk_step(
        &EntityId::new("a"),
        3,
        WalkStage::Entities(f.first_entities.clone()),
        WalkEvent::RelationsRead(Err(StoreError::Backend("gone".to_owned()))),
    );
    assert!(matches!(action, WalkAction::Fail(QueryError::Store(StoreError::Backend(ref m))) if m == "gone"));
}

#[test]
fn store_failures_become_query_failures() {
    assert_eq!(from_store::<u32>(Ok(7)).ok(), Some(7));
    let failed = from_store::<u32>(Err(StoreError::Backend("offline".to_owned())));
    assert!(matches!(failed, Err(QueryError::Store(StoreError::Backend(ref m))) if m == "offline"));
    let first = SnapshotId::new("code.repository:fixture", "v1");
    let other = SnapshotId::new("code.repository:other", "v1");
    assert!(same_world(&first, &first).is_ok());
    assert!(matches!(same_world(&first, &other), Err(QueryError::DifferentWorlds)));
}

#[test]
fn traversal_depths_are_shortest_routes() {
    let s = SnapshotId::new("code.repository:fixture", "v1");
    let entities = vec![entity(&s, "a", "alpha"), entity(&s, "b", "beta"), entity(&s, "c", "gamma")];
    let relations = vec![relation(&s, "a", "b"), relation(&s, "b", "c"), relation(&s, "a", "c")];
    let graph = traverse(
        &s,
        &entities,
        &relations,
        &GraphRequest {
            root: EntityId::new("a"),
            direction: RelationDirection::Outgoing,
            max_depth: 5,
            max_nodes: 10,
            relation_kinds: Vec::new(),
        },
    )
    .expect("traverse graph");
    let depths = graph
        .nodes
        .iter()
        .map(|node| (node.observation.entity.id.as_str().to_owned(), node.depth))
        .collect::<Vec<_>>();
    assert_eq!(depths, vec![("a".to_owned(), 0), ("b".to_owned(), 1), ("c".to_owned(), 1)]);
    assert!(!graph.truncated);
}
