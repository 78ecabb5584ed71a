//! Names of replicas, of operations and of repositories.
use vstd::prelude::*;

verus! {

/// The replica on which an operation was made.
#[derive(Clone, Copy, Debug, PartialEq, Eq, PartialOrd, Ord, Hash, Structural)]
pub struct ReplicaId(pub u32);

impl Default for ReplicaId {
    fn default() -> (id: Self)
        ensures
            id == ReplicaId(0),
    {
        ReplicaId(0)
    }
}

/// How many operations a replica had made when it made this one.
#[derive(Clone, Copy, Debug, PartialEq, Eq, PartialOrd, Ord, Hash, Structural)]
pub struct OperationCount(pub usize);

impl Default for OperationCount {
    fn default() -> (count: Self)
        ensures
            count == OperationCount(0),
    {
        OperationCount(0)
    }
}

/// The name of an operation. Names are ordered by replica, then by count.
#[derive(Clone, Copy, Debug, PartialEq, Eq, PartialOrd, Ord, Hash, Structural)]
pub struct OperationId {
    pub replica_id: ReplicaId,
    pub operation_count: OperationCount,
}

impl OperationId {
    /// The least name, below every other one.
    pub open spec fn first() -> OperationId {
        OperationId { replica_id: ReplicaId(0), operation_count: OperationCount(0) }
    }

    /// The strict order on names.
    pub open spec fn before(self, other: OperationId) -> bool {
        ||| self.replica_id.0 < other.replica_id.0
        ||| self.replica_id.0 == other.replica_id.0 && self.operation_count.0
            < other.operation_count.0
    }

    /// The later of two names.
    pub open spec fn later(self, other: OperationId) -> OperationId {
        if self.before(other) {
            other
        } else {
            self
        }
    }

    /// Whether this name comes strictly before `other`.
    pub fn is_before(&self, other: &OperationId) -> (result: bool)
        ensures
            result == self.before(*other),
    {
        self.replica_id.0 < other.replica_id.0 || (self.replica_id.0 == other.replica_id.0
            && self.operation_count.0 < other.operation_count.0)
    }
}

impl Default for OperationId {
    fn default() -> (id: Self)
        ensures
            id == OperationId::first(),
    {
        OperationId { replica_id: Default::default(), operation_count: Default::default() }
    }
}

/// Names are strictly and totally ordered, those of one replica by their count, those of different
/// replicas by the replica, and none is below the first.
pub proof fn law_names_are_ordered(a: OperationId, b: OperationId, c: OperationId)
    ensures
        a.before(b) || a == b || b.before(a),
        !(a.before(b) && b.before(a)),
        !a.before(a),
        a.before(b) && b.before(c) ==> a.before(c),
        a.replica_id.0 < b.replica_id.0 ==> a.before(b),
        a.replica_id == b.replica_id && a.operation_count.0 < b.operation_count.0 ==> a.before(b),
        !a.before(OperationId::first()),
        a.later(b) == a || a.later(b) == b,
        !a.later(b).before(a),
        !a.later(b).before(b),
{
}

/// The name of a repository: that of the operation which made it.
#[derive(Clone, Copy, Debug, PartialEq, Eq, PartialOrd, Ord, Hash, Structural)]
pub struct RepoId(pub OperationId);

impl Default for RepoId {
    fn default() -> (id: Self)
        ensures
            id == RepoId(OperationId::first()),
    {
        RepoId(Default::default())
    }
}

} // verus!
