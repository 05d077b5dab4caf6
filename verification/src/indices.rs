use vstd::prelude::*;

verus! {

/// Index of an operation in `Schedule::operations`.
pub type OperationId = usize;

/// Index of a batch in `Schedule::batches`.
pub type BatchId = usize;

/// Index of a resource group in a schedule.
pub type ResourceGroupId = usize;

/// Index of a resource inside its resource group.
pub type ResourceId = usize;

} // verus!
