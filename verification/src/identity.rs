//! Stable identifiers of the world-model-agnostic kernel: worlds, snapshot
//! versions, models, entities, relations and score models, each a string.
use vstd::prelude::*;

verus! {

/// A world: one thing that Detamu observes over time.
#[derive(Debug, Clone, PartialEq, Eq, PartialOrd, Ord, Hash)]
pub struct WorldId(pub String);

/// One version of a world.
#[derive(Debug, Clone, PartialEq, Eq, PartialOrd, Ord, Hash)]
pub struct SnapshotVersion(pub String);

/// A world model, such as `code`.
#[derive(Debug, Clone, PartialEq, Eq, PartialOrd, Ord, Hash)]
pub struct ModelId(pub String);

/// An entity, stable across snapshots.
#[derive(Debug, Clone, PartialEq, Eq, PartialOrd, Ord, Hash)]
pub struct EntityId(pub String);

/// A relation between two entities, stable across snapshots.
#[derive(Debug, Clone, PartialEq, Eq, PartialOrd, Ord, Hash)]
pub struct RelationId(pub String);

/// A scoring model.
#[derive(Debug, Clone, PartialEq, Eq, PartialOrd, Ord, Hash)]
pub struct ScoreModelId(pub String);

impl View for WorldId {
    type V = Seq<char>;

    open spec fn view(&self) -> Seq<char> {
        self.0@
    }
}

impl View for SnapshotVersion {
    type V = Seq<char>;

    open spec fn view(&self) -> Seq<char> {
        self.0@
    }
}

impl View for ModelId {
    type V = Seq<char>;

    open spec fn view(&self) -> Seq<char> {
        self.0@
    }
}

impl View for EntityId {
    type V = Seq<char>;

    open spec fn view(&self) -> Seq<char> {
        self.0@
    }
}

impl View for RelationId {
    type V = Seq<char>;

    open spec fn view(&self) -> Seq<char> {
        self.0@
    }
}

impl View for ScoreModelId {
    type V = Seq<char>;

    open spec fn view(&self) -> Seq<char> {
        self.0@
    }
}

impl WorldId {
    pub fn new(value: &str) -> (r: Self)
        ensures
            r@ == value@,
    {
        WorldId(value.to_owned())
    }

    pub fn as_str(&self) -> (s: &str)
        ensures
            s@ == self@,
    {
        self.0.as_str()
    }
}

impl SnapshotVersion {
    pub fn new(value: &str) -> (r: Self)
        ensures
            r@ == value@,
    {
        SnapshotVersion(value.to_owned())
    }

    pub fn as_str(&self) -> (s: &str)
        ensures
            s@ == self@,
    {
        self.0.as_str()
    }
}

impl ModelId {
    pub fn new(value: &str) -> (r: Self)
        ensures
            r@ == value@,
    {
        ModelId(value.to_owned())
    }

    pub fn as_str(&self) -> (s: &str)
        ensures
            s@ == self@,
    {
        self.0.as_str()
    }
}

impl EntityId {
    pub fn new(value: &str) -> (r: Self)
        ensures
            r@ == value@,
    {
        EntityId(value.to_owned())
    }

    pub fn as_str(&self) -> (s: &str)
        ensures
            s@ == self@,
    {
        self.0.as_str()
    }

    /// A copy of this identifier.
    pub fn duplicate(&self) -> (r: Self)
        ensures
            r@ == self@,
    {
        EntityId(self.0.clone())
    }
}

impl RelationId {
    pub fn new(value: &str) -> (r: Self)
        ensures
            r@ == value@,
    {
        RelationId(value.to_owned())
    }

    pub fn as_str(&self) -> (s: &str)
        ensures
            s@ == self@,
    {
        self.0.as_str()
    }
}

impl ScoreModelId {
    pub fn new(value: &str) -> (r: Self)
        ensures
            r@ == value@,
    {
        ScoreModelId(value.to_owned())
    }

    pub fn as_str(&self) -> (s: &str)
        ensures
            s@ == self@,
    {
        self.0.as_str()
    }
}

/// One immutable version of one world.
#[derive(Debug, Clone, PartialEq, Eq, Hash)]
pub struct SnapshotId {
    pub world: WorldId,
    pub version: SnapshotVersion,
}

impl SnapshotId {
    pub fn new(world: &str, version: &str) -> (r: Self)
        ensures
            r.world@ == world@,
            r.version@ == version@,
    {
        SnapshotId { world: WorldId::new(world), version: SnapshotVersion::new(version) }
    }

    /// A copy of this snapshot identifier.
    pub fn duplicate(&self) -> (r: Self)
        ensures
            r.world@ == self.world@,
            r.version@ == self.version@,
    {
        SnapshotId {
            world: WorldId(self.world.0.clone()),
            version: SnapshotVersion(self.version.0.clone()),
        }
    }
}

} // verus!
