//! What the operations hold.
use crate::ids::OperationId;
use vstd::prelude::*;

verus! {

/// Makes the branch `name` from the branch that `parent` made.
#[derive(Debug)]
pub struct CreateBranch {
    pub id: OperationId,
    pub parent: OperationId,
    pub name: String,
}

impl Clone for CreateBranch {
    fn clone(&self) -> (copy: Self)
        ensures
            copy == *self,
    {
        CreateBranch { id: self.id, parent: self.parent, name: self.name.clone() }
    }
}

} // verus!
