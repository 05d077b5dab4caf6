use vstd::prelude::*;
use std::collections::VecDeque;
use crate::indices::OperationId;
use crate::job::{batch_copy, batches_copy, operation_copy, operations_copy, Batch, Operation};
use crate::time::Time;
use crate::worker::{group_copy, groups_copy, resource_copy, Resource, ResourceGroup};
use crate::graph::{has_topological_order, in_edges, is_topological_order, preds, succs};
use crate::sums::{max_batch_start, total_dur, total_duration};
use crate::placement::{
    allocations_follow, allocs_at, best_after, earliest_of, group_allocs_at, execute_time_of, execute_time_upto,
    groups_extended, groups_max_end, horizon, keeps_placed, resources_max_end, same_problem,
};
use crate::strategy::{deterministic_strategies, key_le, path_lengths_of, rank_lt, sort_key, succ_dur_sum, SortStrategy};
use crate::serial::{
    follows_priority, follows_ties, groups_staffed, lemma_sort_key_same, ready_at, ready_step, run_placed_all, serial_order,
    takes_unplaced, tie_rank,
};
use crate::parallel::{busy_at_step, parallel_order, parallel_priority, starts_without_delay, waiting_at};
use crate::worker::busy_at;
use crate::schedule::{none_done, schedule_copy, Schedule};

verus! {

proof fn lemma_copy_in_edges(a: Seq<Operation>, b: Seq<Operation>, v: usize, done: Seq<bool>, k: int)
    requires
        same_problem(a, b),
        0 <= k <= a.len(),
    ensures
        in_edges(a, v, done, k) == in_edges(b, v, done, k),
    decreases k,
{
    if k > 0 {
        lemma_copy_in_edges(a, b, v, done, k - 1);
        assert(succs(a, k - 1) == succs(b, k - 1));
    }
}

proof fn lemma_copy_total_dur(a: Seq<Operation>, b: Seq<Operation>, m: int)
    requires
        same_problem(a, b),
        0 <= m <= a.len(),
    ensures
        total_dur(a, m) == total_dur(b, m),
    decreases m,
{
    if m > 0 {
        lemma_copy_total_dur(a, b, m - 1);
    }
}

proof fn lemma_copy_execute_time(a: Seq<Operation>, b: Seq<Operation>, m: int)
    requires
        operations_copy(a, b),
        0 <= m <= a.len(),
    ensures
        execute_time_upto(a, m) == execute_time_upto(b, m),
    decreases m,
{
    if m > 0 {
        lemma_copy_execute_time(a, b, m - 1);
        assert(operation_copy(a[m - 1], b[m - 1]));
    }
}

proof fn lemma_copy_max_batch_start(a: Seq<Batch>, b: Seq<Batch>)
    requires
        batches_copy(a, b),
    ensures
        max_batch_start(a) == max_batch_start(b),
    decreases a.len(),
{
    if a.len() > 0 {
        assert(batches_copy(a.drop_last(), b.drop_last())) by {
            assert forall|i: int| 0 <= i < a.drop_last().len() implies #[trigger] batch_copy(a.drop_last()[i], b.drop_last()[i]) by {
                assert(batch_copy(a[i], b[i]));
            }
        }
        lemma_copy_max_batch_start(a.drop_last(), b.drop_last());
        assert(batch_copy(a[a.len() - 1], b[b.len() - 1]));
    }
}

proof fn lemma_copy_resources_max_end(a: Seq<Resource>, b: Seq<Resource>)
    requires
        b.len() == a.len(),
        forall|r: int| 0 <= r < a.len() ==> #[trigger] resource_copy(a[r], b[r]),
    ensures
        resources_max_end(a) == resources_max_end(b),
    decreases a.len(),
{
    if a.len() > 0 {
        assert forall|r: int| 0 <= r < a.drop_last().len() implies #[trigger] resource_copy(a.drop_last()[r], b.drop_last()[r]) by {
            assert(resource_copy(a[r], b[r]));
        }
        lemma_copy_resources_max_end(a.drop_last(), b.drop_last());
        assert(resource_copy(a[a.len() - 1], b[b.len() - 1]));
    }
}

proof fn lemma_copy_groups_max_end(a: Seq<ResourceGroup>, b: Seq<ResourceGroup>)
    requires
        groups_copy(a, b),
    ensures
        groups_max_end(a) == groups_max_end(b),
    decreases a.len(),
{
    if a.len() > 0 {
        assert(groups_copy(a.drop_last(), b.drop_last())) by {
            assert forall|g: int| 0 <= g < a.drop_last().len() implies #[trigger] group_copy(a.drop_last()[g], b.drop_last()[g]) by {
                assert(group_copy(a[g], b[g]));
            }
        }
        lemma_copy_groups_max_end(a.drop_last(), b.drop_last());
        let ga = a[a.len() - 1];
        let gb = b[b.len() - 1];
        assert(group_copy(ga, gb));
        lemma_copy_resources_max_end(ga.resources@, gb.resources@);
    }
}

/// Problems that agree on their precedence lists share their topological orders.
pub proof fn lemma_copy_topological(a: Seq<Operation>, b: Seq<Operation>, order: Seq<usize>)
    requires
        same_problem(a, b),
    ensures
        is_topological_order(a, order) <==> is_topological_order(b, order),
{
    assert forall|u: int| 0 <= u < a.len() implies #[trigger] succs(a, u) == succs(b, u) by {}
    if is_topological_order(a, order) {
        assert forall|x: int, y: int| 0 <= x < order.len() && 0 <= y < order.len()
            && #[trigger] succs(b, order[x] as int).contains(#[trigger] order[y]) implies x < y by {
            assert(succs(a, order[x] as int) == succs(b, order[x] as int));
        }
    }
    if is_topological_order(b, order) {
        assert forall|x: int, y: int| 0 <= x < order.len() && 0 <= y < order.len()
            && #[trigger] succs(a, order[x] as int).contains(#[trigger] order[y]) implies x < y by {
            assert(succs(a, order[x] as int) == succs(b, order[x] as int));
        }
    }
}

/// A copy `b` of a schedule `a` poses the same problem: it is well formed,
/// fits the same bounds and has a topological order and staffed groups
/// exactly when `a` has.
pub proof fn lemma_copy_same_problem(a: &Schedule, b: &Schedule)
    requires
        schedule_copy(a, b),
    ensures
        same_problem(a.operations@, b.operations@),
        a.wf() ==> b.wf(),
        a.wf() ==> (a.in_degrees_fit() ==> b.in_degrees_fit()),
        horizon(a.operations@, a.batches@, a.resource_groups@) == horizon(b.operations@, b.batches@, b.resource_groups@),
        total_duration(a.operations@) == total_duration(b.operations@),
        a.wf() ==> forall|s: SortStrategy| a.strategy_fits(s) ==> #[trigger] b.strategy_fits(s),
        has_topological_order(a.operations@) <==> has_topological_order(b.operations@),
        a.wf() ==> (groups_staffed(a.operations@, a.resource_groups@) <==> groups_staffed(b.operations@, b.resource_groups@)),
{
    let oa = a.operations@;
    let ob = b.operations@;
    assert(same_problem(oa, ob)) by {
        assert forall|i: int| 0 <= i < oa.len() implies {
            &&& (#[trigger] oa[i]).id == ob[i].id
            &&& oa[i].duration == ob[i].duration
            &&& oa[i].assigned_batch_id == ob[i].assigned_batch_id
            &&& oa[i].assigned_resource_group_id == ob[i].assigned_resource_group_id
            &&& oa[i].predecessor_ids@ == ob[i].predecessor_ids@
            &&& oa[i].successor_ids@ == ob[i].successor_ids@
        } by {
            assert(operation_copy(oa[i], ob[i]));
        }
    }
    if a.wf() {
        crate::serial::lemma_same_problem_wf(oa, ob, a.batches@.len() as int, a.resource_groups@.len() as int);
        assert forall|v: usize| v < ob.len() implies #[trigger] in_edges(ob, v, none_done(ob.len()), ob.len() as int)
            == in_edges(oa, v, none_done(oa.len()), oa.len() as int) by {
            lemma_copy_in_edges(oa, ob, v, none_done(oa.len()), oa.len() as int);
        }
        assert forall|v: int| 0 <= v < ob.len() implies #[trigger] succ_dur_sum(ob, v) == succ_dur_sum(oa, v) by {
            assert(succs(oa, v) == succs(ob, v));
            crate::serial::lemma_same_problem_dur_sum(oa, ob, succs(oa, v));
        }
    }
    lemma_copy_total_dur(oa, ob, oa.len() as int);
    lemma_copy_execute_time(oa, ob, oa.len() as int);
    lemma_copy_max_batch_start(a.batches@, b.batches@);
    lemma_copy_groups_max_end(a.resource_groups@, b.resource_groups@);
    if has_topological_order(oa) {
        let order = choose|order: Seq<usize>| is_topological_order(oa, order);
        lemma_copy_topological(oa, ob, order);
    }
    if has_topological_order(ob) {
        let order = choose|order: Seq<usize>| is_topological_order(ob, order);
        lemma_copy_topological(oa, ob, order);
    }
    if a.wf() {
        assert forall|i: int| 0 <= i < oa.len() implies (#[trigger] oa[i]).scheduled_span == ob[i].scheduled_span
            && a.resource_groups@[oa[i].assigned_resource_group_id as int].resources@.len()
                == b.resource_groups@[ob[i].assigned_resource_group_id as int].resources@.len() by {
            assert(operation_copy(oa[i], ob[i]));
            let g = oa[i].assigned_resource_group_id as int;
            assert(0 <= g < a.resource_groups@.len());
            assert(group_copy(a.resource_groups@[g], b.resource_groups@[g]));
        }
        if groups_staffed(oa, a.resource_groups@) {
            assert forall|i: int| 0 <= i < ob.len() && (#[trigger] ob[i]).scheduled_span is None
                implies b.resource_groups@[ob[i].assigned_resource_group_id as int].resources@.len() > 0 by {
                assert(oa[i].scheduled_span == ob[i].scheduled_span);
            }
        }
        if groups_staffed(ob, b.resource_groups@) {
            assert forall|i: int| 0 <= i < oa.len() && (#[trigger] oa[i]).scheduled_span is None
                implies a.resource_groups@[oa[i].assigned_resource_group_id as int].resources@.len() > 0 by {
                assert(oa[i].scheduled_span == ob[i].scheduled_span);
                assert(ob[i].scheduled_span is None);
            }
        }
    }
}

/// `best` is `original` after a successful run: the same problem, every
/// operation placed, the new placements correct and disjoint, the old ones
/// kept.
pub open spec fn scheduled_from(original: &Schedule, best: &Schedule) -> bool {
    &&& same_problem(original.operations@, best.operations@)
    &&& batches_copy(original.batches@, best.batches@)
    &&& groups_extended(original.resource_groups@, best.resource_groups@)
    &&& keeps_placed(original.operations@, best.operations@)
    &&& run_placed_all(original.operations@, best.operations@, best.batches@, best.resource_groups@)
}

/// What a run on a copy of `original` shows holds of `original` itself.
proof fn lemma_copy_result(original: &Schedule, pre: Schedule, after: &Schedule)
    requires
        schedule_copy(original, &pre),
        original.wf(),
        horizon(original.operations@, original.batches@, original.resource_groups@)
            + total_duration(original.operations@) < Time::MAX,
        same_problem(pre.operations@, after.operations@),
        after.batches@ == pre.batches@,
        groups_extended(pre.resource_groups@, after.resource_groups@),
        keeps_placed(pre.operations@, after.operations@),
        run_placed_all(pre.operations@, after.operations@, after.batches@, after.resource_groups@),
        execute_time_of(after.operations@)
            <= horizon(pre.operations@, pre.batches@, pre.resource_groups@) + total_duration(pre.operations@),
    ensures
        scheduled_from(original, after),
        execute_time_of(after.operations@) < Time::MAX,
{
    lemma_copy_same_problem(original, &pre);
    let oa = original.operations@;
    let ob = pre.operations@;
    let oc = after.operations@;
    assert forall|i: int| 0 <= i < oa.len() implies #[trigger] operation_copy(oa[i], ob[i]) by {}
    assert(same_problem(oa, oc)) by {
        assert forall|i: int| 0 <= i < oa.len() implies {
            &&& (#[trigger] oa[i]).id == oc[i].id
            &&& oa[i].duration == oc[i].duration
            &&& oa[i].assigned_batch_id == oc[i].assigned_batch_id
            &&& oa[i].assigned_resource_group_id == oc[i].assigned_resource_group_id
            &&& oa[i].predecessor_ids@ == oc[i].predecessor_ids@
            &&& oa[i].successor_ids@ == oc[i].successor_ids@
        } by {
            assert(operation_copy(oa[i], ob[i]));
        }
    }
    let ga = original.resource_groups@;
    let gb = pre.resource_groups@;
    let gc = after.resource_groups@;
    assert(groups_extended(ga, gc)) by {
        assert forall|g: int| 0 <= g < ga.len() implies (#[trigger] ga[g]).resources@.len() == gc[g].resources@.len() by {
            assert(group_copy(ga[g], gb[g]));
        }
        assert forall|g: int, r: int| 0 <= g < ga.len() && 0 <= r < ga[g].resources@.len()
            implies (#[trigger] ga[g].resources@[r]).allocations@.is_prefix_of(gc[g].resources@[r].allocations@) by {
            assert(group_copy(ga[g], gb[g]));
            assert(resource_copy(ga[g].resources@[r], gb[g].resources@[r]));
        }
    }
    assert(keeps_placed(oa, oc)) by {
        assert forall|i: int| 0 <= i < oa.len() && (#[trigger] oa[i]).scheduled_span is Some
            implies oc[i].scheduled_span == oa[i].scheduled_span && oc[i].assigned_resource_id == oa[i].assigned_resource_id by {
            assert(operation_copy(oa[i], ob[i]));
        }
    }
    assert(run_placed_all(oa, oc, after.batches@, gc)) by {
        assert forall|i: int| 0 <= i < oc.len() && (#[trigger] oa[i]).scheduled_span is None
            implies crate::placement::placement_ok(oc, after.batches@, gc, i) by {
            assert(operation_copy(oa[i], ob[i]));
            assert(ob[i].scheduled_span is None);
        }
        assert forall|i: int, j: int| 0 <= i < oc.len() && 0 <= j < oc.len() && i != j
            && (#[trigger] oa[i]).scheduled_span is None && (#[trigger] oa[j]).scheduled_span is None
            implies crate::placement::disjoint_on_resources(oc, i, j) by {
            assert(operation_copy(oa[i], ob[i]));
            assert(operation_copy(oa[j], ob[j]));
            assert(ob[i].scheduled_span is None && ob[j].scheduled_span is None);
        }
    }
}

proof fn lemma_allocs_at_copy(ops: Seq<Operation>, ga: Seq<ResourceGroup>, gb: Seq<ResourceGroup>, order: Seq<usize>, g: int, r: int, k: int)
    requires
        groups_copy(ga, gb),
        0 <= g < ga.len(),
        0 <= r < ga[g].resources@.len(),
    ensures
        allocs_at(ops, ga, order, g, r, k) == allocs_at(ops, gb, order, g, r, k),
    decreases k,
{
    if k > 0 {
        lemma_allocs_at_copy(ops, ga, gb, order, g, r, k - 1);
    } else {
        assert(group_copy(ga[g], gb[g]));
        assert(resource_copy(ga[g].resources@[r], gb[g].resources@[r]));
    }
}

/// Placements measured against copies of the groups are the same placements.
proof fn lemma_greedy_copy(ops: Seq<Operation>, ga: Seq<ResourceGroup>, gb: Seq<ResourceGroup>, groups: Seq<ResourceGroup>, order: Seq<usize>)
    requires
        groups_copy(ga, gb),
        forall|i: int| 0 <= i < ops.len() ==> (#[trigger] ops[i]).assigned_resource_group_id < ga.len(),
        forall|k: int| 0 <= k < order.len() ==> #[trigger] order[k] < ops.len(),
    ensures
        forall|k: int, a: int| 0 <= k < order.len() ==> (#[trigger] best_after(ops, ga, order, k, a) <==> best_after(ops, gb, order, k, a)),
        allocations_follow(ops, ga, groups, order) <==> allocations_follow(ops, gb, groups, order),
{
    assert forall|k: int, a: int| 0 <= k < order.len() implies (#[trigger] best_after(ops, ga, order, k, a) <==> best_after(ops, gb, order, k, a)) by {
        let g = ops[order[k] as int].assigned_resource_group_id as int;
        assert(group_copy(ga[g], gb[g]));
        assert forall|r: int| 0 <= r < ga[g].resources@.len() implies #[trigger] allocs_at(ops, ga, order, g, r, k)
            == allocs_at(ops, gb, order, g, r, k) by {
            lemma_allocs_at_copy(ops, ga, gb, order, g, r, k);
        }
        assert(group_allocs_at(ops, ga, order, g, k) =~= group_allocs_at(ops, gb, order, g, k));
    }
    let n = order.len() as int;
    if allocations_follow(ops, ga, groups, order) {
        assert forall|g: int, r: int| 0 <= g < gb.len() && 0 <= r < gb[g].resources@.len()
            implies #[trigger] groups[g].resources@[r].allocations@ == allocs_at(ops, gb, order, g, r, n) by {
            assert(group_copy(ga[g], gb[g]));
            lemma_allocs_at_copy(ops, ga, gb, order, g, r, n);
        }
    }
    if allocations_follow(ops, gb, groups, order) {
        assert forall|g: int, r: int| 0 <= g < ga.len() && 0 <= r < ga[g].resources@.len()
            implies #[trigger] groups[g].resources@[r].allocations@ == allocs_at(ops, ga, order, g, r, n) by {
            assert(group_copy(ga[g], gb[g]));
            lemma_allocs_at_copy(ops, ga, gb, order, g, r, n);
        }
    }
}

/// A serial run on a copy of `original` is a serial run from `original`.
proof fn lemma_serial_order_copy(original: &Schedule, pre: Schedule, after: &Schedule, order: Seq<usize>)
    requires
        schedule_copy(original, &pre),
        original.wf(),
        same_problem(original.operations@, after.operations@),
        after.resource_groups@.len() == original.resource_groups@.len(),
        serial_order(pre.operations@, after.operations@, after.batches@, pre.resource_groups@, after.resource_groups@, order),
    ensures
        serial_order(original.operations@, after.operations@, after.batches@, original.resource_groups@, after.resource_groups@, order),
{
    let oa = original.operations@;
    let ob = pre.operations@;
    assert forall|i: int| 0 <= i < oa.len() implies #[trigger] oa[i].scheduled_span == ob[i].scheduled_span by {
        assert(operation_copy(oa[i], ob[i]));
    }
    assert forall|k: int| 0 <= k < order.len() implies #[trigger] order[k] < after.operations@.len() by {
        assert(order[k] < ob.len());
    }
    assert forall|i: int| 0 <= i < after.operations@.len()
        implies (#[trigger] after.operations@[i]).assigned_resource_group_id < original.resource_groups@.len() by {
        assert(oa[i].assigned_resource_group_id == after.operations@[i].assigned_resource_group_id);
    }
    lemma_greedy_copy(after.operations@, original.resource_groups@, pre.resource_groups@, after.resource_groups@, order);
    assert forall|k: int| 0 <= k < order.len() implies #[trigger] best_after(after.operations@, original.resource_groups@, order, k,
        earliest_of(after.operations@, after.batches@, order[k] as int)) by {
        assert(best_after(after.operations@, pre.resource_groups@, order, k, earliest_of(after.operations@, after.batches@, order[k] as int)));
    }
    assert forall|k: int, q: int| 0 <= k < order.len() && 0 <= q < preds(after.operations@, order[k] as int).len()
        && (#[trigger] oa[preds(after.operations@, order[k] as int)[q] as int]).scheduled_span is None
        implies order.take(k).contains(preds(after.operations@, order[k] as int)[q]) by {
        let v = order[k] as int;
        let p = preds(after.operations@, v)[q] as int;
        assert(oa[v].predecessor_ids@ == after.operations@[v].predecessor_ids@);
        assert(preds(oa, v)[q] < oa.len());
        assert(ob[p].scheduled_span is None);
    }
}

/// A run on a copy of `original` that kept to a priority rule kept to it
/// from `original`.
proof fn lemma_priority_copy(original: &Schedule, pre: Schedule, pl: Seq<Time>, strategy: SortStrategy, order: Seq<usize>)
    requires
        schedule_copy(original, &pre),
        original.wf(),
        follows_priority(pre.operations@, pre.batches@, pl, strategy, order),
        forall|k: int| 0 <= k < order.len() ==> #[trigger] order[k] < original.operations@.len(),
    ensures
        follows_priority(original.operations@, original.batches@, pl, strategy, order),
{
    let oa = original.operations@;
    let ob = pre.operations@;
    let ba = original.batches@;
    let bb = pre.batches@;
    lemma_copy_same_problem(original, &pre);
    assert forall|i: usize| i < oa.len() implies #[trigger] sort_key(oa, ba, pl, strategy, i)
        == sort_key(ob, bb, pl, strategy, i) by {
        lemma_sort_key_same(oa, ob, ba, pl, strategy, i);
        assert(operation_copy(oa[i as int], ob[i as int]));
        assert(batch_copy(ba[oa[i as int].assigned_batch_id as int], bb[oa[i as int].assigned_batch_id as int]));
    }
    assert forall|k: int, j: int| 0 <= k < order.len() && #[trigger] ready_at(oa, order, k, j)
        implies key_le(sort_key(oa, ba, pl, strategy, order[k]), sort_key(oa, ba, pl, strategy, j as usize)) by {
        assert(operation_copy(oa[j], ob[j]));
        assert forall|q: int| 0 <= q < preds(ob, j).len()
            implies (#[trigger] ob[preds(ob, j)[q] as int]).scheduled_span is Some
                || order.take(k).contains(preds(ob, j)[q]) by {
            let p = preds(oa, j)[q] as int;
            assert(p < oa.len());
            assert(operation_copy(oa[p], ob[p]));
        }
        assert(ready_at(ob, order, k, j));
        assert(sort_key(oa, ba, pl, strategy, order[k]) == sort_key(ob, bb, pl, strategy, order[k]));
        assert(sort_key(oa, ba, pl, strategy, j as usize) == sort_key(ob, bb, pl, strategy, j as usize));
    }
}

proof fn lemma_ready_step_copy(a: Seq<Operation>, b: Seq<Operation>, order: Seq<usize>, ps: Seq<usize>)
    requires
        forall|q: int| 0 <= q < ps.len() ==> (#[trigger] a[ps[q] as int]).scheduled_span == b[ps[q] as int].scheduled_span,
    ensures
        ready_step(a, order, ps) == ready_step(b, order, ps),
    decreases ps.len(),
{
    if ps.len() > 0 {
        let d = ps.drop_last();
        assert forall|q: int| 0 <= q < d.len() implies (#[trigger] a[d[q] as int]).scheduled_span == b[d[q] as int].scheduled_span by {
            assert(d[q] == ps[q]);
        }
        lemma_ready_step_copy(a, b, order, d);
        assert(a[ps[ps.len() - 1] as int].scheduled_span == b[ps[ps.len() - 1] as int].scheduled_span);
    }
}

/// A serial run on a copy of `original` that kept to the tie rule kept to
/// it from `original`.
proof fn lemma_ties_copy(original: &Schedule, pre: Schedule, pl: Seq<Time>, strategy: SortStrategy, order: Seq<usize>)
    requires
        schedule_copy(original, &pre),
        original.wf(),
        follows_ties(pre.operations@, pre.batches@, pl, strategy, order),
        forall|k: int| 0 <= k < order.len() ==> #[trigger] order[k] < original.operations@.len(),
        forall|k: int, q: int| 0 <= k < order.len() && 0 <= q < preds(original.operations@, order[k] as int).len()
            && original.operations@[preds(original.operations@, order[k] as int)[q] as int].scheduled_span is None
            ==> order.take(k).contains(#[trigger] preds(original.operations@, order[k] as int)[q]),
    ensures
        follows_ties(original.operations@, original.batches@, pl, strategy, order),
{
    let oa = original.operations@;
    let ob = pre.operations@;
    let ba = original.batches@;
    let bb = pre.batches@;
    lemma_copy_same_problem(original, &pre);
    assert forall|i: usize| i < oa.len() implies #[trigger] sort_key(oa, ba, pl, strategy, i)
        == sort_key(ob, bb, pl, strategy, i) by {
        lemma_sort_key_same(oa, ob, ba, pl, strategy, i);
        assert(operation_copy(oa[i as int], ob[i as int]));
        assert(batch_copy(ba[oa[i as int].assigned_batch_id as int], bb[oa[i as int].assigned_batch_id as int]));
    }
    assert forall|i: usize| i < oa.len() && (forall|q: int| 0 <= q < preds(oa, i as int).len()
        && oa[preds(oa, i as int)[q] as int].scheduled_span is None ==> order.contains(#[trigger] preds(oa, i as int)[q]))
        implies #[trigger] tie_rank(oa, order, i) == tie_rank(ob, order, i) by {
        assert(operation_copy(oa[i as int], ob[i as int]));
        assert(preds(oa, i as int) == preds(ob, i as int));
        assert forall|q: int| 0 <= q < preds(oa, i as int).len() implies
            (#[trigger] oa[preds(oa, i as int)[q] as int]).scheduled_span == ob[preds(oa, i as int)[q] as int].scheduled_span by {
            let p = preds(oa, i as int)[q] as int;
            assert(p < oa.len());
            assert(operation_copy(oa[p], ob[p]));
        }
        lemma_ready_step_copy(oa, ob, order, preds(oa, i as int));
        let m = ready_step(oa, order, preds(oa, i as int));
        if m != 0 {
            crate::serial::lemma_ready_step_pub(oa, order, preds(oa, i as int));
            assert(m <= order.len());
            let w = order[m - 1] as int;
            if 0 <= w < oa.len() {
                assert(operation_copy(oa[w], ob[w]));
                assert(succs(oa, w) == succs(ob, w));
            }
        }
    }
    assert forall|k: int, j: int| 0 <= k < order.len() && #[trigger] ready_at(oa, order, k, j) && j != order[k] as int
        && sort_key(oa, ba, pl, strategy, order[k]) == sort_key(oa, ba, pl, strategy, j as usize)
        implies rank_lt(tie_rank(oa, order, order[k]), tie_rank(oa, order, j as usize)) by {
        assert(operation_copy(oa[j], ob[j]));
        assert forall|q: int| 0 <= q < preds(ob, j).len()
            implies (#[trigger] ob[preds(ob, j)[q] as int]).scheduled_span is Some
                || order.take(k).contains(preds(ob, j)[q]) by {
            let p = preds(oa, j)[q] as int;
            assert(p < oa.len());
            assert(operation_copy(oa[p], ob[p]));
        }
        assert(ready_at(ob, order, k, j));
        assert(sort_key(oa, ba, pl, strategy, order[k]) == sort_key(ob, bb, pl, strategy, order[k]));
        assert(sort_key(oa, ba, pl, strategy, j as usize) == sort_key(ob, bb, pl, strategy, j as usize));
        assert forall|q: int| 0 <= q < preds(oa, order[k] as int).len()
            && oa[preds(oa, order[k] as int)[q] as int].scheduled_span is None
            implies order.contains(#[trigger] preds(oa, order[k] as int)[q]) by {
            let w = choose|w: int| 0 <= w < order.take(k).len() && order.take(k)[w] == preds(oa, order[k] as int)[q];
            assert(order[w] == order.take(k)[w]);
        }
        assert(tie_rank(oa, order, order[k]) == tie_rank(ob, order, order[k]));
        assert forall|q: int| 0 <= q < preds(oa, j).len()
            && oa[preds(oa, j)[q] as int].scheduled_span is None
            implies order.contains(#[trigger] preds(oa, j)[q]) by {
            assert(order.take(k).contains(preds(oa, j)[q]));
            let w = choose|w: int| 0 <= w < order.take(k).len() && order.take(k)[w] == preds(oa, j)[q];
            assert(order[w] == order.take(k)[w]);
        }
        assert(tie_rank(oa, order, j as usize) == tie_rank(ob, order, j as usize));
    }
}

/// A parallel run on a copy of `original` is a parallel run from `original`.
proof fn lemma_parallel_order_copy(original: &Schedule, pre: Schedule, after: &Schedule, order: Seq<usize>)
    requires
        schedule_copy(original, &pre),
        original.wf(),
        same_problem(original.operations@, after.operations@),
        after.resource_groups@.len() == original.resource_groups@.len(),
        parallel_order(pre.operations@, after.operations@, pre.resource_groups@, after.resource_groups@, order),
    ensures
        parallel_order(original.operations@, after.operations@, original.resource_groups@, after.resource_groups@, order),
{
    let oa = original.operations@;
    let ob = pre.operations@;
    assert forall|i: int| 0 <= i < oa.len() implies #[trigger] oa[i].scheduled_span == ob[i].scheduled_span by {
        assert(operation_copy(oa[i], ob[i]));
    }
    assert forall|k: int| 0 <= k < order.len() implies #[trigger] order[k] < after.operations@.len() by {
        assert(order[k] < ob.len());
    }
    assert forall|i: int| 0 <= i < after.operations@.len()
        implies (#[trigger] after.operations@[i]).assigned_resource_group_id < original.resource_groups@.len() by {
        assert(oa[i].assigned_resource_group_id == after.operations@[i].assigned_resource_group_id);
    }
    lemma_greedy_copy(after.operations@, original.resource_groups@, pre.resource_groups@, after.resource_groups@, order);
    assert forall|k: int| 0 <= k < order.len() implies #[trigger] best_after(after.operations@, original.resource_groups@, order, k,
        after.operations@[order[k] as int].scheduled_span->0.start as int) by {
        assert(best_after(after.operations@, pre.resource_groups@, order, k, after.operations@[order[k] as int].scheduled_span->0.start as int));
    }
    assert forall|k: int, q: int| 0 <= k < order.len() && 0 <= q < preds(after.operations@, order[k] as int).len()
        && (#[trigger] oa[preds(after.operations@, order[k] as int)[q] as int]).scheduled_span is None
        implies order.take(k).contains(preds(after.operations@, order[k] as int)[q]) by {
        let v = order[k] as int;
        let p = preds(after.operations@, v)[q] as int;
        assert(oa[v].predecessor_ids@ == after.operations@[v].predecessor_ids@);
        assert(preds(oa, v)[q] < oa.len());
        assert(ob[p].scheduled_span is None);
    }
}

/// `s` is what a serial run with `strategy` can make of `original`: every
/// operation placed, and the placements those of a serial run that kept to
/// the strategy's priority rule.
pub open spec fn serial_run_of(original: &Schedule, s: &Schedule, strategy: SortStrategy) -> bool {
    &&& scheduled_from(original, s)
    &&& exists|order: Seq<usize>| #[trigger] serial_order(original.operations@, s.operations@, s.batches@,
        original.resource_groups@, s.resource_groups@, order)
        && takes_unplaced(original.operations@, order)
        && follows_priority(original.operations@, original.batches@, path_lengths_of(s.critical_path_data), strategy, order)
        && follows_ties(original.operations@, original.batches@, path_lengths_of(s.critical_path_data), strategy, order)
}

/// `s` is what a parallel run with `strategy` can make of `original`: every
/// operation placed, and the placements those of a parallel run that kept
/// to the strategy's priority rule.
pub open spec fn parallel_run_of(original: &Schedule, s: &Schedule, strategy: SortStrategy) -> bool {
    &&& scheduled_from(original, s)
    &&& exists|order: Seq<usize>| #[trigger] parallel_order(original.operations@, s.operations@,
        original.resource_groups@, s.resource_groups@, order)
        && takes_unplaced(original.operations@, order)
        && parallel_priority(original.operations@, s.operations@, s.batches@, original.resource_groups@,
            path_lengths_of(s.critical_path_data), strategy, order)
        && starts_without_delay(s.operations@, s.batches@, original.resource_groups@, order)
}

/// A parallel run with `strategy` from `original` was made that finishes no
/// earlier than `t`.
pub open spec fn parallel_run_ends_after(original: &Schedule, strategy: SortStrategy, t: int) -> bool {
    exists|s: Schedule| #[trigger] parallel_run_of(original, &s, strategy) && t <= execute_time_of(s.operations@)
}

proof fn lemma_parallel_ends_after_mono(original: &Schedule, strategy: SortStrategy, a: int, b: int)
    requires
        parallel_run_ends_after(original, strategy, a),
        b <= a,
    ensures
        parallel_run_ends_after(original, strategy, b),
{
    let s = choose|s: Schedule| #[trigger] parallel_run_of(original, &s, strategy) && a <= execute_time_of(s.operations@);
    assert(parallel_run_of(original, &s, strategy));
}

/// A serial run with `strategy` from `original` was made that finishes no
/// earlier than `t`.
pub open spec fn serial_run_ends_after(original: &Schedule, strategy: SortStrategy, t: int) -> bool {
    exists|s: Schedule| #[trigger] serial_run_of(original, &s, strategy) && t <= execute_time_of(s.operations@)
}

/// A serial run with `strategy` from `original` was made that finishes
/// after `t`.
pub open spec fn serial_run_ends_later(original: &Schedule, strategy: SortStrategy, t: int) -> bool {
    exists|s: Schedule| #[trigger] serial_run_of(original, &s, strategy) && t < execute_time_of(s.operations@)
}

/// A parallel run with `strategy` from `original` was made that finishes
/// after `t`.
pub open spec fn parallel_run_ends_later(original: &Schedule, strategy: SortStrategy, t: int) -> bool {
    exists|s: Schedule| #[trigger] parallel_run_of(original, &s, strategy) && t < execute_time_of(s.operations@)
}

proof fn lemma_serial_ends_later(original: &Schedule, strategy: SortStrategy, a: int, b: int)
    requires
        serial_run_ends_after(original, strategy, a),
        b < a,
    ensures
        serial_run_ends_later(original, strategy, b),
{
    let s = choose|s: Schedule| #[trigger] serial_run_of(original, &s, strategy) && a <= execute_time_of(s.operations@);
    assert(serial_run_of(original, &s, strategy));
}

proof fn lemma_parallel_ends_later(original: &Schedule, strategy: SortStrategy, a: int, b: int)
    requires
        parallel_run_ends_after(original, strategy, a),
        b < a,
    ensures
        parallel_run_ends_later(original, strategy, b),
{
    let s = choose|s: Schedule| #[trigger] parallel_run_of(original, &s, strategy) && a <= execute_time_of(s.operations@);
    assert(parallel_run_of(original, &s, strategy));
}

proof fn lemma_serial_ends_after_mono(original: &Schedule, strategy: SortStrategy, a: int, b: int)
    requires
        serial_run_ends_after(original, strategy, a),
        b <= a,
    ensures
        serial_run_ends_after(original, strategy, b),
{
    let s = choose|s: Schedule| #[trigger] serial_run_of(original, &s, strategy) && a <= execute_time_of(s.operations@);
    assert(serial_run_of(original, &s, strategy));
}

/// Every strategy but `Random` is one of the ten strategies tried.
proof fn lemma_deterministic_listed(strategies: Seq<SortStrategy>, st: SortStrategy) -> (i: int)
    requires
        !(st is Random),
        strategies == deterministic_strategies(),
    ensures
        0 <= i < 10,
        strategies[i] == st,
{
    match st {
        SortStrategy::PriorityThenDueTime => 0,
        SortStrategy::DueTimeThenPriority => 1,
        SortStrategy::ShortestDurationFirst => 2,
        SortStrategy::LongestDurationFirst => 3,
        SortStrategy::MostSuccessorsFirst => 4,
        SortStrategy::FewestSuccessorsFirst => 5,
        SortStrategy::LongestSuccessorDuration => 6,
        SortStrategy::ShortestSuccessorDuration => 7,
        SortStrategy::EarliestDueDate => 8,
        SortStrategy::LongestCriticalPathFirst => 9,
        SortStrategy::Random => 0,
    }
}

/// A parallel run on a copy of `original` that kept to a priority rule kept
/// to it from `original`.
proof fn lemma_parallel_priority_copy(
    original: &Schedule,
    pre: Schedule,
    after: &Schedule,
    pl: Seq<Time>,
    strategy: SortStrategy,
    order: Seq<usize>,
)
    requires
        schedule_copy(original, &pre),
        original.wf(),
        same_problem(original.operations@, after.operations@),
        parallel_priority(pre.operations@, after.operations@, after.batches@, pre.resource_groups@, pl, strategy, order),
        forall|k: int| 0 <= k < order.len() ==> #[trigger] order[k] < original.operations@.len(),
    ensures
        parallel_priority(original.operations@, after.operations@, after.batches@, original.resource_groups@, pl, strategy, order),
{
    let oa = original.operations@;
    let ob = pre.operations@;
    let oc = after.operations@;
    let bc = after.batches@;
    let ga = original.resource_groups@;
    let gb = pre.resource_groups@;
    lemma_copy_same_problem(original, &pre);
    assert forall|i: usize| i < oa.len() implies #[trigger] sort_key(oa, bc, pl, strategy, i)
        == sort_key(ob, bc, pl, strategy, i) by {
        lemma_sort_key_same(oa, ob, bc, pl, strategy, i);
    }
    assert forall|k: int, y: int| 0 <= k < order.len() && #[trigger] waiting_at(oc, bc, order, k, y)
        && !key_le(sort_key(oa, bc, pl, strategy, order[k]), sort_key(oa, bc, pl, strategy, y as usize))
        implies busy_at_step(oc, ga, order, k, y, oc[order[k] as int].scheduled_span->0.start as int) by {
        assert(sort_key(oa, bc, pl, strategy, order[k]) == sort_key(ob, bc, pl, strategy, order[k]));
        assert(sort_key(oa, bc, pl, strategy, y as usize) == sort_key(ob, bc, pl, strategy, y as usize));
        let g = oc[y].assigned_resource_group_id as int;
        assert(oa[y].assigned_resource_group_id == oc[y].assigned_resource_group_id);
        assert(0 <= g < ga.len());
        assert(group_copy(ga[g], gb[g]));
        assert forall|r: int| 0 <= r < ga[g].resources@.len()
            implies busy_at(#[trigger] allocs_at(oc, ga, order, g, r, k), oc[order[k] as int].scheduled_span->0.start as int,
                oc[y].duration as int) by {
            lemma_allocs_at_copy(oc, ga, gb, order, g, r, k);
        }
    }
}

/// A serial run with `strategy` from `original` was made that finishes at `t`.
pub open spec fn serial_run_takes(original: &Schedule, strategy: SortStrategy, t: int) -> bool {
    exists|s: Schedule| #[trigger] serial_run_of(original, &s, strategy) && execute_time_of(s.operations@) == t
}

/// A parallel run with `strategy` from `original` was made that finishes at `t`.
pub open spec fn parallel_run_takes(original: &Schedule, strategy: SortStrategy, t: int) -> bool {
    exists|s: Schedule| #[trigger] parallel_run_of(original, &s, strategy) && execute_time_of(s.operations@) == t
}

/// A successful serial run on a copy of `original` is a serial run from
/// `original`.
pub(crate) proof fn lemma_serial_run_copy(original: &Schedule, pre: Schedule, after: &Schedule, strategy: SortStrategy)
    requires
        schedule_copy(original, &pre),
        original.wf(),
        horizon(original.operations@, original.batches@, original.resource_groups@)
            + total_duration(original.operations@) < Time::MAX,
        !(strategy is Random),
        same_problem(pre.operations@, after.operations@),
        after.batches@ == pre.batches@,
        groups_extended(pre.resource_groups@, after.resource_groups@),
        keeps_placed(pre.operations@, after.operations@),
        run_placed_all(pre.operations@, after.operations@, after.batches@, after.resource_groups@),
        execute_time_of(after.operations@)
            <= horizon(pre.operations@, pre.batches@, pre.resource_groups@) + total_duration(pre.operations@),
        exists|order: Seq<usize>| #[trigger] serial_order(pre.operations@, after.operations@,
            after.batches@, pre.resource_groups@, after.resource_groups@, order)
            && takes_unplaced(pre.operations@, order)
            && (!(strategy is Random) ==> follows_priority(pre.operations@, pre.batches@,
                path_lengths_of(after.critical_path_data), strategy, order))
            && (!(strategy is Random) ==> follows_ties(pre.operations@, pre.batches@,
                path_lengths_of(after.critical_path_data), strategy, order)),
    ensures
        serial_run_of(original, after, strategy),
        execute_time_of(after.operations@) < Time::MAX,
{
    lemma_copy_result(original, pre, after);
    let order = choose|order: Seq<usize>| #[trigger] serial_order(pre.operations@, after.operations@,
        after.batches@, pre.resource_groups@, after.resource_groups@, order)
        && takes_unplaced(pre.operations@, order)
        && (!(strategy is Random) ==> follows_priority(pre.operations@, pre.batches@,
            path_lengths_of(after.critical_path_data), strategy, order))
        && (!(strategy is Random) ==> follows_ties(pre.operations@, pre.batches@,
            path_lengths_of(after.critical_path_data), strategy, order));
    lemma_serial_order_copy(original, pre, after, order);
    lemma_priority_copy(original, pre, path_lengths_of(after.critical_path_data), strategy, order);
    let oa = original.operations@;
    assert forall|k: int, q: int| 0 <= k < order.len() && 0 <= q < preds(oa, order[k] as int).len()
        && oa[preds(oa, order[k] as int)[q] as int].scheduled_span is None
        implies order.take(k).contains(#[trigger] preds(oa, order[k] as int)[q]) by {
        assert(order[k] < oa.len());
        assert(oa[order[k] as int].predecessor_ids@ == after.operations@[order[k] as int].predecessor_ids@);
        assert(oa[preds(after.operations@, order[k] as int)[q] as int].scheduled_span is None);
    }
    lemma_ties_copy(original, pre, path_lengths_of(after.critical_path_data), strategy, order);
    assert(takes_unplaced(oa, order)) by {
        assert forall|i: int| 0 <= i < oa.len() implies ((#[trigger] oa[i]).scheduled_span is None
            <==> order.contains(i as usize)) by {
            assert(operation_copy(oa[i], pre.operations@[i]));
        }
    }
}

/// A successful parallel run on a copy of `original`, with nothing placed
/// before, is a parallel run from `original`.
pub(crate) proof fn lemma_parallel_run_copy(original: &Schedule, pre: Schedule, after: &Schedule, strategy: SortStrategy)
    requires
        schedule_copy(original, &pre),
        original.wf(),
        horizon(original.operations@, original.batches@, original.resource_groups@)
            + total_duration(original.operations@) < Time::MAX,
        !(strategy is Random),
        forall|i: int| 0 <= i < pre.operations@.len() ==> (#[trigger] pre.operations@[i]).scheduled_span is None,
        same_problem(pre.operations@, after.operations@),
        after.batches@ == pre.batches@,
        groups_extended(pre.resource_groups@, after.resource_groups@),
        run_placed_all(pre.operations@, after.operations@, after.batches@, after.resource_groups@),
        execute_time_of(after.operations@)
            <= horizon(pre.operations@, pre.batches@, pre.resource_groups@) + total_duration(pre.operations@),
        exists|order: Seq<usize>| #[trigger] parallel_order(pre.operations@, after.operations@,
            pre.resource_groups@, after.resource_groups@, order)
            && takes_unplaced(pre.operations@, order)
            && (!(strategy is Random) ==> parallel_priority(pre.operations@, after.operations@,
                after.batches@, pre.resource_groups@, path_lengths_of(after.critical_path_data), strategy, order))
            && starts_without_delay(after.operations@, after.batches@, pre.resource_groups@, order),
    ensures
        parallel_run_of(original, after, strategy),
        execute_time_of(after.operations@) < Time::MAX,
{
    assert(keeps_placed(pre.operations@, after.operations@));
    lemma_copy_result(original, pre, after);
    let order = choose|order: Seq<usize>| #[trigger] parallel_order(pre.operations@, after.operations@,
        pre.resource_groups@, after.resource_groups@, order)
        && takes_unplaced(pre.operations@, order)
        && (!(strategy is Random) ==> parallel_priority(pre.operations@, after.operations@,
            after.batches@, pre.resource_groups@, path_lengths_of(after.critical_path_data), strategy, order))
        && starts_without_delay(after.operations@, after.batches@, pre.resource_groups@, order);
    lemma_parallel_order_copy(original, pre, after, order);
    lemma_copy_same_problem(original, &pre);
    assert forall|i: int| 0 <= i < after.operations@.len()
        implies (#[trigger] after.operations@[i]).assigned_resource_group_id < original.resource_groups@.len() by {
        assert(original.operations@[i].assigned_resource_group_id == after.operations@[i].assigned_resource_group_id);
    }
    assert forall|k: int| 0 <= k < order.len() implies #[trigger] order[k] < after.operations@.len() by {
        assert(order[k] < pre.operations@.len());
    }
    lemma_greedy_copy(after.operations@, original.resource_groups@, pre.resource_groups@, after.resource_groups@, order);
    lemma_parallel_priority_copy(original, pre, after, path_lengths_of(after.critical_path_data), strategy, order);
    assert(takes_unplaced(original.operations@, order)) by {
        assert forall|i: int| 0 <= i < original.operations@.len() implies ((#[trigger] original.operations@[i]).scheduled_span is None
            <==> order.contains(i as usize)) by {
            assert(operation_copy(original.operations@[i], pre.operations@[i]));
        }
    }
}

impl Schedule {
    /// Runs the serial schedule generation on a copy of `original` with every
    /// strategy that does not depend on chance, and keeps the copy that
    /// finishes earliest (the first one on ties), with its strategy and
    /// finish time. When no run succeeds, a copy of `original`, the first
    /// strategy and `Time::MAX` come back.
    pub fn find_best_schedule_serial(original: &Schedule) -> (r: (Schedule, SortStrategy, Time))
        requires
            original.wf(),
            original.in_degrees_fit(),
            horizon(original.operations@, original.batches@, original.resource_groups@)
                + total_duration(original.operations@) < Time::MAX,
            original.strategy_fits(SortStrategy::LongestSuccessorDuration),
        ensures
            has_topological_order(original.operations@) && groups_staffed(original.operations@, original.resource_groups@) ==> {
                &&& serial_run_of(original, &r.0, r.1)
                &&& r.2 == execute_time_of(r.0.operations@)
                &&& r.2 < Time::MAX
                &&& !(r.1 is Random)
                &&& forall|st: SortStrategy| !(st is Random) ==> #[trigger] serial_run_ends_after(original, st, r.2 as int)
                &&& forall|i: int, j: int|
                    #![trigger deterministic_strategies()[j], serial_run_ends_later(original, deterministic_strategies()[i], r.2 as int)]
                    0 <= i < j < 10 && deterministic_strategies()[j] == r.1
                    ==> serial_run_ends_later(original, deterministic_strategies()[i], r.2 as int)
            },
            !(has_topological_order(original.operations@) && groups_staffed(original.operations@, original.resource_groups@)) ==> {
                &&& schedule_copy(original, &r.0)
                &&& r.1 == SortStrategy::PriorityThenDueTime
                &&& r.2 == Time::MAX
            },
    {
        let ghost ok = has_topological_order(original.operations@) && groups_staffed(original.operations@, original.resource_groups@);
        let strategies = SortStrategy::all_except_random();
        let mut best_schedule = original.clone();
        let mut best_execute_time: Time = Time::MAX;
        let mut best_strategy = strategies[0];
        let mut k: usize = 0;
        let ghost mut best_index: int = 0;
        while k < strategies.len()
            invariant
                original.wf(),
                original.in_degrees_fit(),
                horizon(original.operations@, original.batches@, original.resource_groups@)
                    + total_duration(original.operations@) < Time::MAX,
                original.strategy_fits(SortStrategy::LongestSuccessorDuration),
                ok == (has_topological_order(original.operations@) && groups_staffed(original.operations@, original.resource_groups@)),
                strategies@ == deterministic_strategies(),
                0 <= k <= 10,
                best_execute_time == Time::MAX ==> schedule_copy(original, &best_schedule)
                    && best_strategy == SortStrategy::PriorityThenDueTime,
                best_execute_time < Time::MAX ==> serial_run_of(original, &best_schedule, best_strategy)
                    && best_execute_time == execute_time_of(best_schedule.operations@)
                    && !(best_strategy is Random),
                ok ==> forall|i: int| 0 <= i < k ==> #[trigger] serial_run_ends_after(original, strategies@[i], best_execute_time as int),
                best_execute_time < Time::MAX ==> 0 <= best_index < k && strategies@[best_index] == best_strategy,
                forall|i: int| 0 <= i < best_index ==> #[trigger] serial_run_ends_later(original, strategies@[i], best_execute_time as int),
                k > 0 && ok ==> best_execute_time < Time::MAX,
                !ok ==> best_execute_time == Time::MAX,
            decreases 10 - k,
        {
            let strategy = strategies[k];
            let mut schedule = original.clone();
            let ghost pre = schedule;
            proof {
                lemma_copy_same_problem(original, &schedule);
                assert(original.strategy_fits(strategy));
            }
            match schedule.compute_serial(strategy) {
                Ok(()) => {
                    proof {
                        lemma_serial_run_copy(original, pre, &schedule, strategy);
                    }
                    let execute_time = schedule.total_execute_time();
                    let ghost run = schedule;
                    let ghost best0 = best_execute_time;
                    if execute_time < best_execute_time {
                        proof {
                            assert forall|i: int| 0 <= i < k implies #[trigger] serial_run_ends_later(original, strategies@[i],
                                execute_time as int) by {
                                lemma_serial_ends_later(original, strategies@[i], best_execute_time as int, execute_time as int);
                            }
                            best_index = k as int;
                        }
                        best_execute_time = execute_time;
                        best_schedule = schedule;
                        best_strategy = strategy;
                    }
                    proof {
                        assert(serial_run_of(original, &run, strategy) && best_execute_time <= execute_time_of(run.operations@));
                        assert(serial_run_ends_after(original, strategy, best_execute_time as int));
                        assert forall|i: int| 0 <= i < k implies #[trigger] serial_run_ends_after(original, strategies@[i],
                            best_execute_time as int) by {
                            lemma_serial_ends_after_mono(original, strategies@[i], best0 as int, best_execute_time as int);
                        }
                    }
                },
                Err(_) => {},
            }
            k = k + 1;
        }
        proof {
            if ok {
                assert forall|st: SortStrategy| !(st is Random) implies #[trigger] serial_run_ends_after(original, st,
                    best_execute_time as int) by {
                    let i = lemma_deterministic_listed(strategies@, st);
                }
                assert forall|i: int, j: int|
                    #![trigger deterministic_strategies()[j], serial_run_ends_later(original, deterministic_strategies()[i], best_execute_time as int)]
                    0 <= i < j < 10 && deterministic_strategies()[j] == best_strategy
                    implies serial_run_ends_later(original, deterministic_strategies()[i], best_execute_time as int) by {
                    assert(j == best_index);
                }
            }
        }
        (best_schedule, best_strategy, best_execute_time)
    }

    /// Runs the parallel schedule generation on a copy of `original` with
    /// every strategy that does not depend on chance, and keeps the copy that
    /// finishes earliest (the first one on ties), with its strategy and
    /// finish time. When no run succeeds, a copy of `original`, the first
    /// strategy and `Time::MAX` come back.
    pub fn find_best_schedule_parallel(original: &Schedule) -> (r: (Schedule, SortStrategy, Time))
        requires
            original.wf(),
            original.in_degrees_fit(),
            horizon(original.operations@, original.batches@, original.resource_groups@)
                + total_duration(original.operations@) < Time::MAX,
            original.strategy_fits(SortStrategy::LongestSuccessorDuration),
            forall|i: int| 0 <= i < original.operations@.len() ==> (#[trigger] original.operations@[i]).scheduled_span is None,
            original.pending_operation_ids@ == Map::<u32, VecDeque<OperationId>>::empty(),
        ensures
            has_topological_order(original.operations@) && groups_staffed(original.operations@, original.resource_groups@) ==> {
                &&& parallel_run_of(original, &r.0, r.1)
                &&& r.2 == execute_time_of(r.0.operations@)
                &&& r.2 < Time::MAX
                &&& !(r.1 is Random)
                &&& forall|st: SortStrategy| !(st is Random) ==> #[trigger] parallel_run_ends_after(original, st, r.2 as int)
                &&& forall|i: int, j: int|
                    #![trigger deterministic_strategies()[j], parallel_run_ends_later(original, deterministic_strategies()[i], r.2 as int)]
                    0 <= i < j < 10 && deterministic_strategies()[j] == r.1
                    ==> parallel_run_ends_later(original, deterministic_strategies()[i], r.2 as int)
            },
            !(has_topological_order(original.operations@) && groups_staffed(original.operations@, original.resource_groups@)) ==> {
                &&& schedule_copy(original, &r.0)
                &&& r.1 == SortStrategy::PriorityThenDueTime
                &&& r.2 == Time::MAX
            },
    {
        let ghost ok = has_topological_order(original.operations@) && groups_staffed(original.operations@, original.resource_groups@);
        let strategies = SortStrategy::all_except_random();
        let mut best_schedule = original.clone();
        let mut best_execute_time: Time = Time::MAX;
        let mut best_strategy = strategies[0];
        let mut k: usize = 0;
        let ghost mut best_index: int = 0;
        while k < strategies.len()
            invariant
                original.wf(),
                original.in_degrees_fit(),
                horizon(original.operations@, original.batches@, original.resource_groups@)
                    + total_duration(original.operations@) < Time::MAX,
                original.strategy_fits(SortStrategy::LongestSuccessorDuration),
                forall|i: int| 0 <= i < original.operations@.len() ==> (#[trigger] original.operations@[i]).scheduled_span is None,
                original.pending_operation_ids@ == Map::<u32, VecDeque<OperationId>>::empty(),
                ok == (has_topological_order(original.operations@) && groups_staffed(original.operations@, original.resource_groups@)),
                strategies@ == deterministic_strategies(),
                0 <= k <= 10,
                best_execute_time == Time::MAX ==> schedule_copy(original, &best_schedule)
                    && best_strategy == SortStrategy::PriorityThenDueTime,
                best_execute_time < Time::MAX ==> parallel_run_of(original, &best_schedule, best_strategy)
                    && best_execute_time == execute_time_of(best_schedule.operations@)
                    && !(best_strategy is Random),
                ok ==> forall|i: int| 0 <= i < k ==> #[trigger] parallel_run_ends_after(original, strategies@[i], best_execute_time as int),
                best_execute_time < Time::MAX ==> 0 <= best_index < k && strategies@[best_index] == best_strategy,
                forall|i: int| 0 <= i < best_index ==> #[trigger] parallel_run_ends_later(original, strategies@[i], best_execute_time as int),
                k > 0 && ok ==> best_execute_time < Time::MAX,
                !ok ==> best_execute_time == Time::MAX,
            decreases 10 - k,
        {
            let strategy = strategies[k];
            let mut schedule = original.clone();
            let ghost pre = schedule;
            proof {
                lemma_copy_same_problem(original, &schedule);
                assert(original.strategy_fits(strategy));
                assert forall|i: int| 0 <= i < schedule.operations@.len() implies (#[trigger] schedule.operations@[i]).scheduled_span is None by {
                    assert(operation_copy(original.operations@[i], schedule.operations@[i]));
                }
            }
            match schedule.compute_parallel(strategy) {
                Ok(()) => {
                    proof {
                        lemma_parallel_run_copy(original, pre, &schedule, strategy);
                    }
                    let execute_time = schedule.total_execute_time();
                    let ghost run = schedule;
                    let ghost best0 = best_execute_time;
                    if execute_time < best_execute_time {
                        proof {
                            assert forall|i: int| 0 <= i < k implies #[trigger] parallel_run_ends_later(original, strategies@[i],
                                execute_time as int) by {
                                lemma_parallel_ends_later(original, strategies@[i], best_execute_time as int, execute_time as int);
                            }
                            best_index = k as int;
                        }
                        best_execute_time = execute_time;
                        best_schedule = schedule;
                        best_strategy = strategy;
                    }
                    proof {
                        assert(parallel_run_of(original, &run, strategy) && best_execute_time <= execute_time_of(run.operations@));
                        assert(parallel_run_ends_after(original, strategy, best_execute_time as int));
                        assert forall|i: int| 0 <= i < k implies #[trigger] parallel_run_ends_after(original, strategies@[i],
                            best_execute_time as int) by {
                            lemma_parallel_ends_after_mono(original, strategies@[i], best0 as int, best_execute_time as int);
                        }
                    }
                },
                Err(_) => {},
            }
            k = k + 1;
        }
        proof {
            if ok {
                assert forall|st: SortStrategy| !(st is Random) implies #[trigger] parallel_run_ends_after(original, st,
                    best_execute_time as int) by {
                    let i = lemma_deterministic_listed(strategies@, st);
                }
                assert forall|i: int, j: int|
                    #![trigger deterministic_strategies()[j], parallel_run_ends_later(original, deterministic_strategies()[i], best_execute_time as int)]
                    0 <= i < j < 10 && deterministic_strategies()[j] == best_strategy
                    implies parallel_run_ends_later(original, deterministic_strategies()[i], best_execute_time as int) by {
                    assert(j == best_index);
                }
            }
        }
        (best_schedule, best_strategy, best_execute_time)
    }
}

} // verus!
