//! What replicas send to each other.
use crate::ids::{OperationId, RepoId};
use crate::operations::CreateBranch;
use vstd::prelude::*;

verus! {

/// One change, under a name of its own.
#[derive(Debug)]
pub enum Operation {
    CreateBranch(CreateBranch),
}

impl Operation {
    pub open spec fn spec_id(&self) -> OperationId {
        match self {
            Operation::CreateBranch(operation) => operation.id,
        }
    }

    /// The name of this operation.
    #[verifier::when_used_as_spec(spec_id)]
    pub fn id(&self) -> (id: OperationId)
        ensures
            id == self.id(),
    {
        match self {
            Operation::CreateBranch(operation) => operation.id,
        }
    }
}

impl Clone for Operation {
    fn clone(&self) -> (copy: Self)
        ensures
            copy == *self,
    {
        match self {
            Operation::CreateBranch(operation) => Operation::CreateBranch(operation.clone()),
        }
    }
}

/// The name of an operation that makes a branch is the one that the branch is known by, whatever
/// else the operation holds.
pub proof fn law_name_of_branch(operation: CreateBranch)
    ensures
        Operation::CreateBranch(operation).id() == operation.id,
{
}

/// Asks a server to take over `operations`.
#[derive(Debug)]
pub struct PublishOperations {
    pub repo_id: RepoId,
    pub operations: Vec<Operation>,
}

} // verus!
