use vstd::prelude::*;
use std::collections::{BTreeMap, VecDeque};
use crate::indices::{BatchId, OperationId, ResourceGroupId};
use crate::job::{batches_copy, clone_batches, clone_operations, operations_copy, Batch, Operation};
use crate::time::Time;
use crate::worker::{clone_groups, groups_copy, ResourceGroup};
use crate::sums::{max_batch_start, total_duration};
use crate::placement::{execute_time_of, execute_time_upto, horizon};
use crate::strategy::{succ_dur_sum, SortStrategy};
use crate::graph::{graph_wf, in_edges, lemma_push_contains, precedence_wf, preds, succs};

verus! {

/// Why a schedule could not be computed.
#[derive(Clone, Copy, Debug, PartialEq, Eq, Structural)]
pub enum ScheduleError {
    /// The precedence graph has a cycle.
    CycleDetected,
    /// A resource group has no resource at all for an operation.
    ResourceGroupCannotAllocate { resource_group_id: ResourceGroupId, operation_id: OperationId },
    /// Operations are left but nothing is pending later.
    NoFutureEventTimes,
    /// The next event time did not move past the current time.
    NoNextEventTime { current_time: Time, unscheduled_operations_count: usize },
    /// No resource could take the operation.
    CannotAllocate { operation_id: OperationId },
}

/// Earliest/latest start and finish of every operation, its slack and the
/// length of the longest chain of work that starts with it.
pub struct CriticalPathData {
    pub earliest_start: Vec<Time>,
    pub earliest_finish: Vec<Time>,
    pub latest_start: Vec<Time>,
    pub latest_finish: Vec<Time>,
    pub float: Vec<Time>,
    pub path_lengths: Vec<Time>,
}

/// Operations, batches and resource groups, and the state of a scheduling run.
pub struct Schedule {
    pub resource_groups: Vec<ResourceGroup>,
    pub batches: Vec<Batch>,
    pub operations: Vec<Operation>,
    pub pending_operation_ids: BTreeMap<Time, VecDeque<OperationId>>,
    pub critical_path_data: Option<CriticalPathData>,
}

/// `b` holds the same values as `a`.
pub open spec fn critical_path_copy(a: CriticalPathData, b: CriticalPathData) -> bool {
    &&& b.earliest_start@ == a.earliest_start@
    &&& b.earliest_finish@ == a.earliest_finish@
    &&& b.latest_start@ == a.latest_start@
    &&& b.latest_finish@ == a.latest_finish@
    &&& b.float@ == a.float@
    &&& b.path_lengths@ == a.path_lengths@
}

/// `b` holds the same values as `a`, item by item.
pub open spec fn schedule_copy(a: &Schedule, b: &Schedule) -> bool {
    &&& operations_copy(a.operations@, b.operations@)
    &&& batches_copy(a.batches@, b.batches@)
    &&& groups_copy(a.resource_groups@, b.resource_groups@)
    &&& b.pending_operation_ids@ == a.pending_operation_ids@
    &&& match (a.critical_path_data, b.critical_path_data) {
        (None, None) => true,
        (Some(x), Some(y)) => critical_path_copy(x, y),
        _ => false,
    }
}

impl Clone for CriticalPathData {
    fn clone(&self) -> (r: Self)
        ensures
            critical_path_copy(*self, r),
    {
        let r = Self {
            earliest_start: self.earliest_start.clone(),
            earliest_finish: self.earliest_finish.clone(),
            latest_start: self.latest_start.clone(),
            latest_finish: self.latest_finish.clone(),
            float: self.float.clone(),
            path_lengths: self.path_lengths.clone(),
        };
        proof {
            assert(r.earliest_start@ =~= self.earliest_start@);
            assert(r.earliest_finish@ =~= self.earliest_finish@);
            assert(r.latest_start@ =~= self.latest_start@);
            assert(r.latest_finish@ =~= self.latest_finish@);
            assert(r.float@ =~= self.float@);
            assert(r.path_lengths@ =~= self.path_lengths@);
        }
        r
    }
}

impl Clone for Schedule {
    fn clone(&self) -> (r: Self)
        ensures
            schedule_copy(self, &r),
    {
        let critical_path_data = match &self.critical_path_data {
            Some(cp) => Some(cp.clone()),
            None => None,
        };
        Self {
            resource_groups: clone_groups(&self.resource_groups),
            batches: clone_batches(&self.batches),
            operations: clone_operations(&self.operations),
            pending_operation_ids: self.pending_operation_ids.clone(),
            critical_path_data: critical_path_data,
        }
    }
}

/// Operations agree on everything but their precedence lists.
pub open spec fn same_but_links(a: Operation, b: Operation) -> bool {
    &&& a.id == b.id
    &&& a.duration == b.duration
    &&& a.assigned_batch_id == b.assigned_batch_id
    &&& a.assigned_resource_group_id == b.assigned_resource_group_id
    &&& a.assigned_resource_id == b.assigned_resource_id
    &&& a.scheduled_span == b.scheduled_span
}

/// Every entry is false.
pub open spec fn none_done(n: nat) -> Seq<bool> {
    Seq::new(n, |i: int| false)
}


impl Schedule {
    /// Ids are in range and precedence lists mirror each other.
    pub open spec fn wf(&self) -> bool {
        graph_wf(self.operations@, self.batches@.len() as int, self.resource_groups@.len() as int)
    }

    /// Successor, predecessor and batch ids are in range and precedence
    /// lists mirror each other.
    pub open spec fn precedence_ok(&self) -> bool {
        precedence_wf(self.operations@, self.batches@.len() as int)
    }

    /// No operation has more incoming edges than `usize` can count.
    pub open spec fn in_degrees_fit(&self) -> bool {
        forall|v: usize| v < self.operations@.len()
            ==> #[trigger] in_edges(self.operations@, v, none_done(self.operations@.len()), self.operations@.len() as int) <= usize::MAX
    }

    /// The latest batch start plus all work fits in `Time`.
    pub open spec fn durations_fit(&self) -> bool {
        max_batch_start(self.batches@) + total_duration(self.operations@) <= Time::MAX
    }

    /// Everything the schedule already refers to, plus all the work, fits in `Time`.
    pub open spec fn horizon_fits(&self) -> bool {
        horizon(self.operations@, self.batches@, self.resource_groups@) + total_duration(self.operations@) <= Time::MAX
    }

    /// Where the strategy adds up successor durations, the sums fit in `Time`.
    pub open spec fn strategy_fits(&self, strategy: SortStrategy) -> bool {
        (strategy is LongestSuccessorDuration || strategy is ShortestSuccessorDuration)
            ==> forall|v: int| 0 <= v < self.operations@.len() ==> #[trigger] succ_dur_sum(self.operations@, v) <= Time::MAX
    }

    pub fn new() -> (s: Self)
        ensures
            s.resource_groups@.len() == 0,
            s.batches@.len() == 0,
            s.operations@.len() == 0,
            s.wf(),
            s.pending_operation_ids@ == Map::<Time, VecDeque<OperationId>>::empty(),
            s.critical_path_data is None,
    {
        Self {
            resource_groups: Vec::new(),
            batches: Vec::new(),
            operations: Vec::new(),
            pending_operation_ids: BTreeMap::new(),
            critical_path_data: None,
        }
    }

    pub fn add_resource_group(&mut self, resource_group: ResourceGroup) -> (id: ResourceGroupId)
        ensures
            final(self).pending_operation_ids@ == old(self).pending_operation_ids@,
            final(self).critical_path_data == old(self).critical_path_data,
            final(self).resource_groups@ == old(self).resource_groups@.push(resource_group),
            final(self).batches@ == old(self).batches@,
            final(self).operations@ == old(self).operations@,
            id == old(self).resource_groups@.len(),
            old(self).wf() ==> final(self).wf(),
    {
        self.resource_groups.push(resource_group);
        return self.resource_groups.len() - 1;
    }

    pub fn add_batch(&mut self, batch: Batch) -> (id: BatchId)
        ensures
            final(self).pending_operation_ids@ == old(self).pending_operation_ids@,
            final(self).critical_path_data == old(self).critical_path_data,
            final(self).resource_groups@ == old(self).resource_groups@,
            final(self).batches@ == old(self).batches@.push(batch),
            final(self).operations@ == old(self).operations@,
            id == old(self).batches@.len(),
            old(self).wf() ==> final(self).wf(),
    {
        self.batches.push(batch);
        return self.batches.len() - 1;
    }

    pub fn add_operation(&mut self, operation: Operation) -> (id: OperationId)
        ensures
            final(self).pending_operation_ids@ == old(self).pending_operation_ids@,
            final(self).critical_path_data == old(self).critical_path_data,
            final(self).resource_groups@ == old(self).resource_groups@,
            final(self).batches@ == old(self).batches@,
            final(self).operations@ == old(self).operations@.push(operation),
            id == old(self).operations@.len(),
            old(self).wf() && operation.id == old(self).operations@.len()
                && operation.predecessor_ids@.len() == 0 && operation.successor_ids@.len() == 0
                && operation.assigned_batch_id < old(self).batches@.len()
                && operation.assigned_resource_group_id < old(self).resource_groups@.len()
                ==> final(self).wf(),
    {
        self.operations.push(operation);
        proof {
            let ops = self.operations@;
            let n = old(self).operations@.len();
            if old(self).wf() && operation.id == n && operation.predecessor_ids@.len() == 0
                && operation.successor_ids@.len() == 0 {
                assert forall|u: int, v: int| 0 <= u < ops.len() && 0 <= v < ops.len() implies
                    (#[trigger] succs(ops, u).contains(v as usize) <==> #[trigger] preds(ops, v).contains(u as usize)) by {
                    if u < n && v < n {
                        assert(succs(ops, u) == succs(old(self).operations@, u));
                        assert(preds(ops, v) == preds(old(self).operations@, v));
                        assert(succs(old(self).operations@, u).contains(v as usize) <==> preds(old(self).operations@, v).contains(u as usize));
                    } else if u < n {
                        if succs(ops, u).contains(v as usize) {
                            let k = choose|k: int| 0 <= k < succs(ops, u).len() && succs(ops, u)[k] == v as usize;
                            assert(succs(old(self).operations@, u)[k] < n);
                        }
                    } else if v < n {
                        if preds(ops, v).contains(u as usize) {
                            let k = choose|k: int| 0 <= k < preds(ops, v).len() && preds(ops, v)[k] == u as usize;
                            assert(preds(old(self).operations@, v)[k] < n);
                        }
                    }
                }
                assert forall|i: int, k: int| 0 <= i < ops.len() && 0 <= k < succs(ops, i).len()
                    implies #[trigger] succs(ops, i)[k] < ops.len() by {
                    if i < n {
                        assert(succs(ops, i) == succs(old(self).operations@, i));
                    }
                }
                assert forall|i: int, k: int| 0 <= i < ops.len() && 0 <= k < preds(ops, i).len()
                    implies #[trigger] preds(ops, i)[k] < ops.len() by {
                    if i < n {
                        assert(preds(ops, i) == preds(old(self).operations@, i));
                    }
                }
            }
        }
        return self.operations.len() - 1;
    }

    pub fn add_precedence(&mut self, predecessor_id: OperationId, successor_id: OperationId)
        requires
            predecessor_id < old(self).operations@.len(),
            successor_id < old(self).operations@.len(),
        ensures
            final(self).pending_operation_ids@ == old(self).pending_operation_ids@,
            final(self).critical_path_data == old(self).critical_path_data,
            final(self).resource_groups@ == old(self).resource_groups@,
            final(self).batches@ == old(self).batches@,
            final(self).operations@.len() == old(self).operations@.len(),
            forall|i: int| 0 <= i < old(self).operations@.len()
                ==> same_but_links(#[trigger] final(self).operations@[i], old(self).operations@[i]),
            succs(final(self).operations@, predecessor_id as int)
                == succs(old(self).operations@, predecessor_id as int).push(successor_id),
            preds(final(self).operations@, successor_id as int)
                == preds(old(self).operations@, successor_id as int).push(predecessor_id),
            successor_id != predecessor_id ==> preds(final(self).operations@, predecessor_id as int)
                == preds(old(self).operations@, predecessor_id as int),
            successor_id != predecessor_id ==> succs(final(self).operations@, successor_id as int)
                == succs(old(self).operations@, successor_id as int),
            forall|i: int| 0 <= i < old(self).operations@.len() && i != predecessor_id && i != successor_id
                ==> #[trigger] final(self).operations@[i] == old(self).operations@[i],
            old(self).wf() ==> final(self).wf(),
    {
        self.operations[predecessor_id].successor_ids.push(successor_id);
        self.operations[successor_id].predecessor_ids.push(predecessor_id);
        proof {
            let ops = self.operations@;
            let old_ops = old(self).operations@;
            let n = old_ops.len();
            if old(self).wf() {
                assert forall|u: int, v: int| 0 <= u < n && 0 <= v < n implies
                    (#[trigger] succs(ops, u).contains(v as usize) <==> #[trigger] preds(ops, v).contains(u as usize)) by {
                    assert(succs(old_ops, u).contains(v as usize) <==> preds(old_ops, v).contains(u as usize));
                    lemma_push_contains(succs(old_ops, u), successor_id, v as usize);
                    lemma_push_contains(preds(old_ops, v), predecessor_id, u as usize);
                    if u != predecessor_id {
                        assert(succs(ops, u) == succs(old_ops, u));
                    }
                    if v != successor_id {
                        assert(preds(ops, v) == preds(old_ops, v));
                    }
                }
                assert forall|i: int, k: int| 0 <= i < ops.len() && 0 <= k < succs(ops, i).len()
                    implies #[trigger] succs(ops, i)[k] < ops.len() by {
                    if i == predecessor_id && k == succs(old_ops, i).len() {
                    } else {
                        assert(succs(ops, i)[k] == succs(old_ops, i)[k]);
                    }
                }
                assert forall|i: int, k: int| 0 <= i < ops.len() && 0 <= k < preds(ops, i).len()
                    implies #[trigger] preds(ops, i)[k] < ops.len() by {
                    if i == successor_id && k == preds(old_ops, i).len() {
                    } else {
                        assert(preds(ops, i)[k] == preds(old_ops, i)[k]);
                    }
                }
                assert forall|i: int| 0 <= i < ops.len() implies (#[trigger] ops[i]).id == i by {
                    assert(same_but_links(ops[i], old_ops[i]));
                }
                assert forall|i: int| 0 <= i < ops.len() implies (#[trigger] ops[i]).assigned_batch_id < self.batches@.len() by {
                    assert(same_but_links(ops[i], old_ops[i]));
                }
                assert forall|i: int| 0 <= i < ops.len() implies (#[trigger] ops[i]).assigned_resource_group_id < self.resource_groups@.len() by {
                    assert(same_but_links(ops[i], old_ops[i]));
                }
            }
        }
    }

    /// The latest end of a placed operation (0 when none is placed).
    pub fn total_execute_time(&self) -> (t: Time)
        ensures
            t == execute_time_of(self.operations@),
    {
        let n = self.operations.len();
        let mut best: Time = 0;
        let mut i: usize = 0;
        while i < n
            invariant
                n == self.operations@.len(),
                0 <= i <= n,
                best == execute_time_upto(self.operations@, i as int),
            decreases n - i,
        {
            match self.operations[i].scheduled_span {
                Some(span) => {
                    if span.end > best {
                        best = span.end;
                    }
                },
                None => {},
            }
            i = i + 1;
        }
        best
    }
}

} // verus!
