use vstd::prelude::*;
use crate::indices::{BatchId, OperationId, ResourceGroupId, ResourceId};
use crate::time::{Span, Time};

verus! {

/// A unit of work: it takes `duration` time units on one resource of its
/// resource group and may only start once all its predecessors have ended.
pub struct Operation {
    pub id: OperationId,
    pub duration: Time,
    pub assigned_batch_id: BatchId,
    pub assigned_resource_group_id: ResourceGroupId,
    pub predecessor_ids: Vec<OperationId>,
    pub successor_ids: Vec<OperationId>,
    pub assigned_resource_id: Option<ResourceId>,
    pub scheduled_span: Option<Span>,
}

/// `b` holds the same values as `a`.
pub open spec fn operation_copy(a: Operation, b: Operation) -> bool {
    &&& b.id == a.id
    &&& b.duration == a.duration
    &&& b.assigned_batch_id == a.assigned_batch_id
    &&& b.assigned_resource_group_id == a.assigned_resource_group_id
    &&& b.predecessor_ids@ == a.predecessor_ids@
    &&& b.successor_ids@ == a.successor_ids@
    &&& b.assigned_resource_id == a.assigned_resource_id
    &&& b.scheduled_span == a.scheduled_span
}

impl Clone for Operation {
    fn clone(&self) -> (r: Self)
        ensures
            operation_copy(*self, r),
    {
        let predecessor_ids = self.predecessor_ids.clone();
        let successor_ids = self.successor_ids.clone();
        proof {
            assert(predecessor_ids@ =~= self.predecessor_ids@);
            assert(successor_ids@ =~= self.successor_ids@);
        }
        Self {
            id: self.id,
            duration: self.duration,
            assigned_batch_id: self.assigned_batch_id,
            assigned_resource_group_id: self.assigned_resource_group_id,
            predecessor_ids: predecessor_ids,
            successor_ids: successor_ids,
            assigned_resource_id: self.assigned_resource_id,
            scheduled_span: self.scheduled_span,
        }
    }
}

impl Operation {
    pub fn new(
        id: usize,
        duration: Time,
        assigned_batch_id: BatchId,
        assigned_resource_group_id: ResourceGroupId,
    ) -> (op: Self)
        ensures
            op.id == id,
            op.duration == duration,
            op.assigned_batch_id == assigned_batch_id,
            op.assigned_resource_group_id == assigned_resource_group_id,
            op.predecessor_ids@ == Seq::<OperationId>::empty(),
            op.successor_ids@ == Seq::<OperationId>::empty(),
            op.assigned_resource_id is None,
            op.scheduled_span is None,
    {
        Self {
            id: id,
            duration: duration,
            assigned_batch_id: assigned_batch_id,
            assigned_resource_group_id: assigned_resource_group_id,
            predecessor_ids: Vec::new(),
            successor_ids: Vec::new(),
            assigned_resource_id: None,
            scheduled_span: None,
        }
    }

    pub fn is_scheduled(&self) -> (r: bool)
        ensures
            r == self.scheduled_span is Some,
    {
        self.scheduled_span.is_some()
    }
}

/// A group of operations that share a release time, a due time and a priority.
pub struct Batch {
    pub id: BatchId,
    pub operation_ids: Vec<OperationId>,
    pub start_time: Time,
    pub due_time: Time,
    pub priority: usize,
}

/// `b` holds the same values as `a`.
pub open spec fn batch_copy(a: Batch, b: Batch) -> bool {
    &&& b.id == a.id
    &&& b.operation_ids@ == a.operation_ids@
    &&& b.start_time == a.start_time
    &&& b.due_time == a.due_time
    &&& b.priority == a.priority
}

/// Every operation of `b` is a copy of the one of `a` at the same index.
pub open spec fn operations_copy(a: Seq<Operation>, b: Seq<Operation>) -> bool {
    &&& b.len() == a.len()
    &&& forall|i: int| 0 <= i < a.len() ==> #[trigger] operation_copy(a[i], b[i])
}

/// Every batch of `b` is a copy of the one of `a` at the same index.
pub open spec fn batches_copy(a: Seq<Batch>, b: Seq<Batch>) -> bool {
    &&& b.len() == a.len()
    &&& forall|i: int| 0 <= i < a.len() ==> #[trigger] batch_copy(a[i], b[i])
}

impl Clone for Batch {
    fn clone(&self) -> (r: Self)
        ensures
            batch_copy(*self, r),
    {
        let operation_ids = self.operation_ids.clone();
        proof {
            assert(operation_ids@ =~= self.operation_ids@);
        }
        Self {
            id: self.id,
            operation_ids: operation_ids,
            start_time: self.start_time,
            due_time: self.due_time,
            priority: self.priority,
        }
    }
}

/// Copies every operation.
pub(crate) fn clone_operations(ops: &Vec<Operation>) -> (r: Vec<Operation>)
    ensures
        operations_copy(ops@, r@),
{
    let mut r: Vec<Operation> = Vec::new();
    let mut i: usize = 0;
    while i < ops.len()
        invariant
            0 <= i <= ops@.len(),
            r@.len() == i,
            forall|k: int| 0 <= k < i ==> #[trigger] operation_copy(ops@[k], r@[k]),
        decreases ops@.len() - i,
    {
        r.push(ops[i].clone());
        i = i + 1;
    }
    r
}

/// Copies every batch.
pub(crate) fn clone_batches(batches: &Vec<Batch>) -> (r: Vec<Batch>)
    ensures
        batches_copy(batches@, r@),
{
    let mut r: Vec<Batch> = Vec::new();
    let mut i: usize = 0;
    while i < batches.len()
        invariant
            0 <= i <= batches@.len(),
            r@.len() == i,
            forall|k: int| 0 <= k < i ==> #[trigger] batch_copy(batches@[k], r@[k]),
        decreases batches@.len() - i,
    {
        r.push(batches[i].clone());
        i = i + 1;
    }
    r
}

impl Batch {
    pub fn new(id: BatchId, start_time: Time, due_time: Time, priority: usize) -> (b: Self)
        ensures
            b.id == id,
            b.operation_ids@ == Seq::<OperationId>::empty(),
            b.start_time == start_time,
            b.due_time == due_time,
            b.priority == priority,
    {
        Self { id: id, operation_ids: Vec::new(), start_time: start_time, due_time: due_time, priority: priority }
    }
}

} // verus!
