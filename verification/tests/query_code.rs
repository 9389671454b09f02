use detamu::identity::{EntityId, ModelId, RelationId, ScoreModelId, SnapshotId};
use detamu::kernel::{AttributeValue, Attributes, Entity, EntityObservation, Measurement, Relation, RelationObservation, Score};
use detamu::query_code::{
    at_location, avec_required_measurements_list, avec_score_dimensions_list, find, gaps, impact,
    CodeEntityFilter,
};

fn entity(snapshot: &SnapshotId, id: &str, label: &str, start: u64, end: u64) -> EntityObservation {
    EntityObservation {
        snapshot: snapshot.clone(),
        entity: Entity {
            id: EntityId::new(id),
            model: ModelId::new("code"),
            kind: "function".to_owned(),
            label: label.to_owned(),
        },
        attributes: Attributes {
            entries: vec![
                ("file_path".to_owned(), AttributeValue::Text("src/lib.rs".to_owned())),
                ("language".to_owned(), AttributeValue::Text("rust".to_owned())),
                ("line_start".to_owned(), AttributeValue::Unsigned(start)),
                ("line_end".to_owned(), AttributeValue::Unsigned(end)),
            ],
        },
        measurements: Vec::new(),
        scores: Vec::new(),
    }
}

fn measurement(name: &str) -> Measurement {
    Measurement { name: name.to_owned(), value: 1.0f64.to_bits(), unit: None, evidence: None }
}

fn relation(snapshot: &SnapshotId, from: &str, to: &str) -> RelationObservation {
    RelationObservation {
        snapshot: snapshot.clone(),
        relation: Relation {
            id: RelationId::new(&format!("{from}:calls:{to}")),
            model: ModelId::new("code"),
            kind: "calls".to_owned(),
            from: EntityId::new(from),
            to: EntityId::new(to),
        },
        weight: 1.0f64.to_bits(),
        attributes: Attributes::new(),
    }
}

fn fixture() -> (SnapshotId, Vec<EntityObservation>, Vec<RelationObservation>) {
    let snapshot = SnapshotId::new("code.repository:fixture", "v1");
    let mut target = entity(&snapshot, "target", "target", 10, 14);
    target.measurements.push(measurement("code.lines_of_code"));
    let mut caller = entity(&snapshot, "caller", "caller", 1, 30);
    caller.measurements = avec_required_measurements_list().iter().map(|name| measurement(name)).collect();
    caller.scores = avec_score_dimensions_list()
        .iter()
        .map(|dimension| Score {
            model: ScoreModelId::new("avec-code"),
            dimension: (*dimension).to_owned(),
            value: 0.5f64.to_bits(),
        })
        .collect();
    let entities = vec![target, caller, entity(&snapshot, "transitive", "transitive", 40, 45)];
    let relations = vec![relation(&snapshot, "caller", "target"), relation(&snapshot, "transitive", "caller")];
    (snapshot, entities, relations)
}

#[test]
fn location_lookup_prefers_the_narrowest_symbol() {
    let (_, entities, _) = fixture();
    let entity = at_location(&entities, "src/lib.rs", 12).expect("matching symbol");
    assert_eq!(entity.entity.id.as_str(), "target");
}

#[test]
fn location_lookup_finds_nothing_outside_every_symbol() {
    let (_, entities, _) = fixture();
    assert!(at_location(&entities, "src/lib.rs", 35).is_none());
    assert!(at_location(&entities, "src/other.rs", 12).is_none());
}

#[test]
fn impact_walks_reverse_code_dependencies() {
    let (snapshot, entities, relations) = fixture();
    let impact = impact(&snapshot, &entities, &relations, &EntityId::new("target"), 3, 100).expect("impact analysis");

    assert_eq!(impact.direct_dependents, 1);
    assert_eq!(impact.transitive_dependents, 1);
    assert_eq!(impact.graph.relations.len(), 2);
}

#[test]
fn impact_of_an_unknown_entity_is_an_error() {
    let (snapshot, entities, relations) = fixture();
    assert!(impact(&snapshot, &entities, &relations, &EntityId::new("missing"), 3, 100).is_err());
}

#[test]
fn gaps_explain_missing_avec_inputs_and_scores() {
    let (snapshot, entities, _) = fixture();
    let report = gaps::<()>(&snapshot, None, &entities);

    assert_eq!(report.scoreable_entities, 2);
    assert_eq!(report.fully_scored_entities, 1);
    assert_eq!(report.gaps.len(), 1);
    assert_eq!(report.gaps[0].entity.id.as_str(), "target");
    assert!(report.gaps[0].missing_measurements.contains(&"test.line_coverage".to_owned()));
    assert_eq!(report.gaps[0].missing_scores.len(), 4);
}

#[test]
fn code_filter_selects_by_path_and_name() {
    let (_, entities, _) = fixture();
    let found = find(
        &entities,
        &CodeEntityFilter {
            path: Some("src/lib.rs".to_owned()),
            name_contains: Some("CALL".to_owned()),
            kind: None,
            language: Some("rust".to_owned()),
            limit: None,
        },
    );
    assert_eq!(found.len(), 1);
    assert_eq!(found[0].entity.id.as_str(), "caller");
}
