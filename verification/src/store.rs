//! The persistence contract's own values: which way a dependency is followed
//! and why a store refused or failed a request.
use vstd::prelude::*;

use crate::identity::SnapshotId;
use crate::text::{append_chars, chars_of, same_chars, string_of};

verus! {

/// Which dependencies of a symbol a lookup returns.
#[derive(Debug, Clone, Copy, PartialEq, Eq)]
pub enum DependencyDirection {
    Incoming,
    Outgoing,
    Both,
}

/// Which relations of an entity a lookup or traversal follows.
#[derive(Debug, Clone, Copy, PartialEq, Eq)]
pub enum RelationDirection {
    Incoming,
    Outgoing,
    Both,
}

/// Why a store operation did not complete.
#[derive(Debug)]
pub enum StoreError {
    InconsistentBatch(String),
    Backend(String),
}

pub open spec fn store_error_message(e: StoreError) -> Seq<char> {
    match e {
        StoreError::InconsistentBatch(m) => "store rejected an inconsistent observation batch: "@ + m@,
        StoreError::Backend(m) => "store operation failed: "@ + m@,
    }
}

impl StoreError {
    /// The text that describes this error.
    pub fn message(&self) -> (s: String)
        ensures
            s@ == store_error_message(*self),
    {
        let (mut text, detail) = match self {
            StoreError::InconsistentBatch(m) => (chars_of("store rejected an inconsistent observation batch: "), m),
            StoreError::Backend(m) => (chars_of("store operation failed: "), m),
        };
        append_chars(&mut text, &chars_of(detail.as_str()));
        string_of(&text)
    }
}

/// A snapshot as text: its world and its version.
pub open spec fn snapshot_view(s: SnapshotId) -> (Seq<char>, Seq<char>) {
    (s.world@, s.version@)
}

/// Whether two snapshots are the same version of the same world.
pub fn same_snapshot(a: &SnapshotId, b: &SnapshotId) -> (r: bool)
    ensures
        r == (snapshot_view(*a) == snapshot_view(*b)),
{
    same_chars(&chars_of(a.world.as_str()), &chars_of(b.world.as_str()))
        && same_chars(&chars_of(a.version.as_str()), &chars_of(b.version.as_str()))
}

/// Accepts a batch only when every observation in it is of the batch's own
/// snapshot.
pub fn check_batch(batch: &SnapshotId, observed: &[SnapshotId]) -> (r: Result<(), StoreError>)
    ensures
        r is Ok <==> forall|i: int| 0 <= i < observed@.len() ==> snapshot_view(#[trigger] observed@[i]) == snapshot_view(*batch),
        r matches Err(e) ==> e matches StoreError::InconsistentBatch(m) && m@ == "an observation belongs to a different revision"@,
{
    let mut i: usize = 0;
    while i < observed.len()
        invariant
            i <= observed@.len(),
            forall|k: int| 0 <= k < i ==> snapshot_view(#[trigger] observed@[k]) == snapshot_view(*batch),
        decreases observed@.len() - i,
    {
        if !same_snapshot(&observed[i], batch) {
            return Err(StoreError::InconsistentBatch("an observation belongs to a different revision".to_owned()));
        }
        i = i + 1;
    }
    Ok(())
}

} // verus!
