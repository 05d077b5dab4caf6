use vstd::prelude::*;
use std::collections::VecDeque;
use crate::indices::OperationId;
use crate::job::{Batch, Operation};
use crate::time::{Span, Time};
use crate::worker::{is_best_resource, lemma_free_start, lemma_max_end_bounds, ResourceGroup};
use crate::graph::{graph_wf, has_topological_order, lemma_minimal_not_done, lemma_mirror, preds, preds_in_range, succs};
use crate::sums::{count_true, lemma_count_true_bounds, lemma_count_true_set, lemma_sum_dur_le_total, lemma_sum_dur_set, sum_dur, total_duration};
use crate::placement::{allocations_follow, best_after, earliest_of, lemma_greedy_step, execute_time_of, allocated_one, lemma_place_step, placed_one, disjoint_on_resources, end_or_zero, groups_extended, horizon, keeps_placed, lemma_horizon, lemma_max_end_of_bound, lemma_max_end_of_ge, lemma_max_end_of_take, max_end_of, placement_ok, same_problem, times_within};
use crate::strategy::{
    key_le, keys_computable, path_lengths_of, rank_lt, ranks_follow, sort_key, sort_queue_by_strategy, sorted_by_key,
    SortStrategy,
};
use crate::critical_path::critical_path_consistent;
use crate::sums::seq_max;
use crate::schedule::CriticalPathData;
use crate::schedule::{Schedule, ScheduleError};

verus! {

/// Operation `i` is not placed yet but all its predecessors are.
pub open spec fn ready(ops: Seq<Operation>, i: int) -> bool {
    &&& ops[i].scheduled_span is None
    &&& forall|q: int| 0 <= q < preds(ops, i).len() ==> (#[trigger] ops[preds(ops, i)[q] as int]).scheduled_span is Some
}

/// The ids of the operations below `m` that are ready, in index order.
pub open spec fn ready_ids(ops: Seq<Operation>, m: int) -> Seq<usize>
    decreases m,
{
    if m <= 0 {
        Seq::empty()
    } else if ready(ops, m - 1) {
        ready_ids(ops, m - 1).push(ops[m - 1].id)
    } else {
        ready_ids(ops, m - 1)
    }
}

/// Where every operation's id is its index, the ready ids below `m` are
/// the ready operations below `m`, in increasing order.
proof fn lemma_ready_ids(ops: Seq<Operation>, m: int)
    requires
        0 <= m <= ops.len(),
        forall|i: int| 0 <= i < ops.len() ==> (#[trigger] ops[i]).id == i,
    ensures
        forall|a: int, b: int| 0 <= a < b < ready_ids(ops, m).len() ==> ready_ids(ops, m)[a] < ready_ids(ops, m)[b],
        forall|k: int| 0 <= k < ready_ids(ops, m).len() ==> #[trigger] ready_ids(ops, m)[k] < m
            && ready(ops, ready_ids(ops, m)[k] as int),
        forall|i: int| 0 <= i < m && #[trigger] ready(ops, i) ==> ready_ids(ops, m).contains(i as usize),
    decreases m,
{
    if m > 0 {
        lemma_ready_ids(ops, m - 1);
        let r0 = ready_ids(ops, m - 1);
        if ready(ops, m - 1) {
            let r = ready_ids(ops, m);
            assert(r == r0.push((m - 1) as usize));
            assert forall|i: int| 0 <= i < m && #[trigger] ready(ops, i) implies r.contains(i as usize) by {
                if i == m - 1 {
                    assert(r[r0.len() as int] == i as usize);
                } else {
                    let k = choose|k: int| 0 <= k < r0.len() && r0[k] == i as usize;
                    assert(r[k] == i as usize);
                }
            }
            assert forall|k: int| 0 <= k < r.len() implies #[trigger] r[k] < m && ready(ops, r[k] as int) by {
                if k < r0.len() {
                    assert(r[k] == r0[k]);
                }
            }
        }
    }
}

/// Every operation not placed in `ops` has a group with at least one resource.
pub open spec fn groups_staffed(ops: Seq<Operation>, groups: Seq<ResourceGroup>) -> bool {
    forall|i: int| 0 <= i < ops.len() && (#[trigger] ops[i]).scheduled_span is None
        ==> groups[ops[i].assigned_resource_group_id as int].resources@.len() > 0
}

/// After a successful run: every operation is placed; the ones placed by the
/// run are placed correctly and never share a resource at the same time.
pub open spec fn run_placed_all(before: Seq<Operation>, after: Seq<Operation>, batches: Seq<Batch>, groups: Seq<ResourceGroup>) -> bool {
    &&& forall|i: int| 0 <= i < after.len() ==> (#[trigger] after[i]).scheduled_span is Some
    &&& forall|i: int| 0 <= i < after.len() && (#[trigger] before[i]).scheduled_span is None
        ==> placement_ok(after, batches, groups, i)
    &&& forall|i: int, j: int| 0 <= i < after.len() && 0 <= j < after.len() && i != j
        && (#[trigger] before[i]).scheduled_span is None && (#[trigger] before[j]).scheduled_span is None
        ==> disjoint_on_resources(after, i, j)
}

/// `s` without any occurrence of `x`.
pub open spec fn without(s: Seq<usize>, x: usize) -> Seq<usize>
    decreases s.len(),
{
    if s.len() == 0 {
        s
    } else if s.last() == x {
        without(s.drop_last(), x)
    } else {
        without(s.drop_last(), x).push(s.last())
    }
}

proof fn lemma_without_absent(s: Seq<usize>, x: usize)
    requires
        !s.contains(x),
    ensures
        without(s, x) == s,
    decreases s.len(),
{
    if s.len() > 0 {
        assert(!s.drop_last().contains(x)) by {
            if s.drop_last().contains(x) {
                let k = choose|k: int| 0 <= k < s.drop_last().len() && s.drop_last()[k] == x;
                assert(s[k] == x);
            }
        }
        lemma_without_absent(s.drop_last(), x);
        assert(s.last() != x) by {
            assert(s[s.len() - 1] == s.last());
        }
        assert(s =~= s.drop_last().push(s.last()));
    }
}

/// A permutation keeps membership and the absence of duplicates.
pub proof fn lemma_permutation(a: Seq<usize>, b: Seq<usize>)
    requires
        a.to_multiset() == b.to_multiset(),
    ensures
        forall|x: usize| a.contains(x) <==> b.contains(x),
        a.no_duplicates() ==> b.no_duplicates(),
{
    broadcast use vstd::seq_lib::group_seq_properties;
    broadcast use vstd::multiset::group_multiset_axioms;
    a.to_multiset_ensures();
    b.to_multiset_ensures();
    assert forall|x: usize| a.contains(x) <==> b.contains(x) by {
        assert(a.to_multiset().count(x) == b.to_multiset().count(x));
        assert(a.contains(x) <==> a.to_multiset().count(x) > 0);
        assert(b.contains(x) <==> b.to_multiset().count(x) > 0);
    }
    if a.no_duplicates() {
        a.lemma_multiset_has_no_duplicates();
        b.lemma_multiset_has_no_duplicates_conv();
    }
}

/// Keys can be computed for any operations of a well-formed schedule.
proof fn lemma_keys_computable(s: &Schedule, strategy: SortStrategy, ids: Seq<usize>)
    requires
        s.wf(),
        s.strategy_fits(strategy),
        s.critical_path_data matches Some(cp) && cp.path_lengths@.len() == s.operations@.len(),
        forall|k: int| 0 <= k < ids.len() ==> #[trigger] ids[k] < s.operations@.len(),
    ensures
        keys_computable(s.operations@, s.batches@, path_lengths_of(s.critical_path_data), strategy, ids),
{
}

/// Changing only placements keeps a schedule well formed.
pub proof fn lemma_same_problem_wf(a: Seq<Operation>, b: Seq<Operation>, batch_count: int, group_count: int)
    requires
        graph_wf(a, batch_count, group_count),
        same_problem(a, b),
    ensures
        graph_wf(b, batch_count, group_count),
{
    assert forall|i: int| 0 <= i < b.len() implies #[trigger] succs(b, i) == succs(a, i) && preds(b, i) == preds(a, i) by {
        assert(a[i].successor_ids@ == b[i].successor_ids@);
        assert(a[i].predecessor_ids@ == b[i].predecessor_ids@);
    }
    assert forall|u: int, v: int| 0 <= u < b.len() && 0 <= v < b.len() implies
        (#[trigger] succs(b, u).contains(v as usize) <==> #[trigger] preds(b, v).contains(u as usize)) by {
        assert(succs(b, u) == succs(a, u));
        assert(preds(b, v) == preds(a, v));
        assert(succs(a, u).contains(v as usize) <==> preds(a, v).contains(u as usize));
    }
    assert forall|i: int, k: int| 0 <= i < b.len() && 0 <= k < succs(b, i).len() implies #[trigger] succs(b, i)[k] < b.len() by {
        assert(succs(b, i) == succs(a, i));
    }
    assert forall|i: int, k: int| 0 <= i < b.len() && 0 <= k < preds(b, i).len() implies #[trigger] preds(b, i)[k] < b.len() by {
        assert(preds(b, i) == preds(a, i));
    }
    assert forall|i: int| 0 <= i < b.len() implies (#[trigger] b[i]).id == i by {
        assert(a[i].id == b[i].id);
    }
    assert forall|i: int| 0 <= i < b.len() implies (#[trigger] b[i]).assigned_batch_id < batch_count by {
        assert(a[i].assigned_batch_id == b[i].assigned_batch_id);
    }
    assert forall|i: int| 0 <= i < b.len() implies (#[trigger] b[i]).assigned_resource_group_id < group_count by {
        assert(a[i].assigned_resource_group_id == b[i].assigned_resource_group_id);
    }
}

pub proof fn lemma_same_problem_dur_sum(a: Seq<Operation>, b: Seq<Operation>, idxs: Seq<usize>)
    requires
        same_problem(a, b),
        forall|k: int| 0 <= k < idxs.len() ==> #[trigger] idxs[k] < a.len(),
    ensures
        crate::strategy::dur_sum_of(a, idxs) == crate::strategy::dur_sum_of(b, idxs),
    decreases idxs.len(),
{
    if idxs.len() > 0 {
        assert forall|k: int| 0 <= k < idxs.drop_last().len() implies #[trigger] idxs.drop_last()[k] < a.len() by {
            assert(idxs.drop_last()[k] == idxs[k]);
        }
        lemma_same_problem_dur_sum(a, b, idxs.drop_last());
        assert(a[idxs.last() as int].duration == b[idxs.last() as int].duration);
    }
}

/// The operations of `order` were placed one after the other: each was not
/// placed before the run, each of its predecessors was placed before the
/// run or comes earlier in `order`, and each sits on the first resource of
/// its group where it could start earliest from its earliest start, given
/// the allocations made before it; the allocations of `groups` are those of
/// `groups0` followed by the spans of `order`.
pub open spec fn serial_order(
    before: Seq<Operation>,
    after: Seq<Operation>,
    batches: Seq<Batch>,
    groups0: Seq<ResourceGroup>,
    groups: Seq<ResourceGroup>,
    order: Seq<usize>,
) -> bool {
    &&& order.no_duplicates()
    &&& forall|k: int| 0 <= k < order.len() ==> #[trigger] order[k] < before.len()
        && before[order[k] as int].scheduled_span is None
    &&& forall|k: int| 0 <= k < order.len()
        ==> #[trigger] best_after(after, groups0, order, k, earliest_of(after, batches, order[k] as int))
    &&& forall|k: int, q: int| 0 <= k < order.len() && 0 <= q < preds(after, order[k] as int).len()
        && (#[trigger] before[preds(after, order[k] as int)[q] as int]).scheduled_span is None
        ==> order.take(k).contains(preds(after, order[k] as int)[q])
    &&& allocations_follow(after, groups0, groups, order)
}

/// The run took exactly the operations that were not placed before it.
pub open spec fn takes_unplaced(before: Seq<Operation>, order: Seq<usize>) -> bool {
    forall|i: int| 0 <= i < before.len() ==> ((#[trigger] before[i]).scheduled_span is None <==> order.contains(i as usize))
}

/// Operation `j` could have been taken at step `k` of a run from `before`
/// that took the operations of `order`: it was not placed before the run,
/// is not among the first `k` taken, and each of its predecessors was placed
/// before the run or is among them.
pub open spec fn ready_at(before: Seq<Operation>, order: Seq<usize>, k: int, j: int) -> bool {
    &&& 0 <= j < before.len()
    &&& before[j].scheduled_span is None
    &&& !order.take(k).contains(j as usize)
    &&& forall|q: int| 0 <= q < preds(before, j).len()
        ==> (#[trigger] before[preds(before, j)[q] as int]).scheduled_span is Some
            || order.take(k).contains(preds(before, j)[q])
}

/// At each step the run took an operation whose key under `strategy` is no
/// greater than that of any operation ready at that step.
pub open spec fn follows_priority(
    before: Seq<Operation>,
    batches: Seq<Batch>,
    pl: Seq<Time>,
    strategy: SortStrategy,
    order: Seq<usize>,
) -> bool {
    forall|k: int, j: int| 0 <= k < order.len() && #[trigger] ready_at(before, order, k, j)
        ==> key_le(sort_key(before, batches, pl, strategy, order[k]), sort_key(before, batches, pl, strategy, j as usize))
}

/// Index of the first occurrence of `x` in `s`, or `s.len()` when absent.
pub open spec fn first_pos(s: Seq<usize>, x: usize) -> int
    decreases s.len(),
{
    if s.len() == 0 {
        0
    } else if s[0] == x {
        0
    } else {
        1 + first_pos(s.drop_first(), x)
    }
}

/// The step of a run from `before` that placed `order` at which an
/// operation with predecessors `ps` became ready: 0 when they were all
/// placed before the run, else one past the last of them in `order`.
pub open spec fn ready_step(before: Seq<Operation>, order: Seq<usize>, ps: Seq<usize>) -> int
    decreases ps.len(),
{
    if ps.len() == 0 {
        0
    } else {
        let r = ready_step(before, order, ps.drop_last());
        let e = if before[ps.last() as int].scheduled_span is None { first_pos(order, ps.last()) + 1 } else { 0 };
        if e > r { e } else { r }
    }
}

/// How the serial run breaks ties between equal keys: the operation that
/// became ready at an earlier step first; among those ready from the start,
/// the lower id; among those made ready by the same placement, the one that
/// comes first among the successors of the placed operation.
pub open spec fn tie_rank(before: Seq<Operation>, order: Seq<usize>, y: usize) -> (int, int) {
    let m = ready_step(before, order, preds(before, y as int));
    if m == 0 {
        (0, y as int)
    } else {
        (m, first_pos(succs(before, order[m - 1] as int), y))
    }
}

/// At each step the run took, among the ready operations with its key, the
/// one with the least tie rank.
pub open spec fn follows_ties(
    before: Seq<Operation>,
    batches: Seq<Batch>,
    pl: Seq<Time>,
    strategy: SortStrategy,
    order: Seq<usize>,
) -> bool {
    forall|k: int, j: int| 0 <= k < order.len() && #[trigger] ready_at(before, order, k, j) && j != order[k] as int
        && sort_key(before, batches, pl, strategy, order[k]) == sort_key(before, batches, pl, strategy, j as usize)
        ==> rank_lt(tie_rank(before, order, order[k]), tie_rank(before, order, j as usize))
}

pub(crate) proof fn lemma_first_pos(s: Seq<usize>, x: usize)
    ensures
        0 <= first_pos(s, x) <= s.len(),
        s.contains(x) ==> first_pos(s, x) < s.len() && s[first_pos(s, x)] == x,
        !s.contains(x) ==> first_pos(s, x) == s.len(),
        forall|i: int| 0 <= i < first_pos(s, x) ==> s[i] != x,
    decreases s.len(),
{
    if s.len() > 0 && s[0] != x {
        let t = s.drop_first();
        lemma_first_pos(t, x);
        assert forall|i: int| 0 <= i < first_pos(s, x) implies s[i] != x by {
            if i > 0 {
                assert(s[i] == t[i - 1]);
            }
        }
        if s.contains(x) {
            let k = choose|k: int| 0 <= k < s.len() && s[k] == x;
            assert(t[k - 1] == x);
            assert(s[first_pos(s, x)] == t[first_pos(t, x)]);
        }
        if t.contains(x) {
            let k = choose|k: int| 0 <= k < t.len() && t[k] == x;
            assert(s[k + 1] == x);
        }
    }
}

proof fn lemma_first_pos_push(s: Seq<usize>, y: usize, x: usize)
    requires
        s.contains(x),
    ensures
        first_pos(s.push(y), x) == first_pos(s, x),
    decreases s.len(),
{
    if s[0] != x {
        let t = s.drop_first();
        let k = choose|k: int| 0 <= k < s.len() && s[k] == x;
        assert(t[k - 1] == x);
        assert(s.push(y).drop_first() =~= t.push(y));
        lemma_first_pos_push(t, y, x);
    }
}

/// The ready step is the largest of the steps its unplaced predecessors give.
proof fn lemma_ready_step(before: Seq<Operation>, order: Seq<usize>, ps: Seq<usize>)
    ensures
        ready_step(before, order, ps) >= 0,
        forall|q: int| 0 <= q < ps.len() && before[ps[q] as int].scheduled_span is None
            ==> first_pos(order, #[trigger] ps[q]) + 1 <= ready_step(before, order, ps),
        ready_step(before, order, ps) == 0 || exists|q: int| 0 <= q < ps.len()
            && before[ps[q] as int].scheduled_span is None && ready_step(before, order, ps) == first_pos(order, #[trigger] ps[q]) + 1,
    decreases ps.len(),
{
    if ps.len() > 0 {
        let d = ps.drop_last();
        lemma_ready_step(before, order, d);
        lemma_first_pos(order, ps.last());
        assert forall|q: int| 0 <= q < ps.len() && before[ps[q] as int].scheduled_span is None
            implies first_pos(order, #[trigger] ps[q]) + 1 <= ready_step(before, order, ps) by {
            if q < d.len() {
                assert(ps[q] == d[q]);
            }
        }
        if ready_step(before, order, ps) != 0 {
            if ready_step(before, order, ps) == ready_step(before, order, d) {
                let q = choose|q: int| 0 <= q < d.len()
                    && before[d[q] as int].scheduled_span is None && ready_step(before, order, d) == first_pos(order, #[trigger] d[q]) + 1;
                assert(ps[q] == d[q]);
            } else {
                assert(ps[ps.len() - 1] == ps.last());
            }
        }
    }
}

/// The ready step, when not 0, is one past the place of some operation of `order`.
pub proof fn lemma_ready_step_pub(before: Seq<Operation>, order: Seq<usize>, ps: Seq<usize>)
    ensures
        ready_step(before, order, ps) >= 0,
        ready_step(before, order, ps) <= order.len() + 1,
        (forall|q: int| 0 <= q < ps.len() && before[ps[q] as int].scheduled_span is None ==> order.contains(#[trigger] ps[q]))
            ==> ready_step(before, order, ps) <= order.len(),
{
    lemma_ready_step(before, order, ps);
    if ready_step(before, order, ps) != 0 {
        let q = choose|q: int| 0 <= q < ps.len()
            && before[ps[q] as int].scheduled_span is None && ready_step(before, order, ps) == first_pos(order, #[trigger] ps[q]) + 1;
        lemma_first_pos(order, ps[q]);
    }
}

/// The ready step reads only the places of predecessors already in `order`.
proof fn lemma_ready_step_push(before: Seq<Operation>, order: Seq<usize>, x: usize, ps: Seq<usize>)
    requires
        forall|q: int| 0 <= q < ps.len() && before[ps[q] as int].scheduled_span is None ==> order.contains(#[trigger] ps[q]),
    ensures
        ready_step(before, order.push(x), ps) == ready_step(before, order, ps),
    decreases ps.len(),
{
    if ps.len() > 0 {
        let d = ps.drop_last();
        assert forall|q: int| 0 <= q < d.len() && before[d[q] as int].scheduled_span is None implies order.contains(#[trigger] d[q]) by {
            assert(d[q] == ps[q]);
        }
        lemma_ready_step_push(before, order, x, d);
        if before[ps.last() as int].scheduled_span is None {
            assert(ps[ps.len() - 1] == ps.last());
            lemma_first_pos_push(order, x, ps.last());
        }
    }
}

/// The tie rank of an operation whose unplaced predecessors are all in
/// `order` does not change as the run goes on; its step is at most the
/// length of `order`.
proof fn lemma_tie_rank_push(before: Seq<Operation>, order: Seq<usize>, x: usize, y: usize)
    requires
        forall|q: int| 0 <= q < preds(before, y as int).len() && before[preds(before, y as int)[q] as int].scheduled_span is None
            ==> order.contains(#[trigger] preds(before, y as int)[q]),
    ensures
        tie_rank(before, order.push(x), y) == tie_rank(before, order, y),
        ready_step(before, order, preds(before, y as int)) <= order.len(),
{
    let ps = preds(before, y as int);
    lemma_ready_step_push(before, order, x, ps);
    lemma_ready_step(before, order, ps);
    let m = ready_step(before, order, ps);
    if m != 0 {
        let q = choose|q: int| 0 <= q < ps.len()
            && before[ps[q] as int].scheduled_span is None && m == first_pos(order, #[trigger] ps[q]) + 1;
        lemma_first_pos(order, ps[q]);
        assert(order.push(x)[m - 1] == order[m - 1]);
    }
}

/// Ranks among equal keys do not depend on placements.
proof fn lemma_ranks_follow_same(
    a: Seq<Operation>,
    b: Seq<Operation>,
    batches: Seq<Batch>,
    pl: Seq<Time>,
    strategy: SortStrategy,
    q: Seq<usize>,
    rank: spec_fn(usize) -> (int, int),
    group_count: int,
)
    requires
        same_problem(a, b),
        graph_wf(a, batches.len() as int, group_count),
        forall|j: int| 0 <= j < q.len() ==> #[trigger] q[j] < a.len(),
    ensures
        ranks_follow(q, a, batches, pl, strategy, rank) <==> ranks_follow(q, b, batches, pl, strategy, rank),
{
    assert forall|j: int| 0 <= j < q.len() implies #[trigger] sort_key(a, batches, pl, strategy, q[j])
        == sort_key(b, batches, pl, strategy, q[j]) by {
        lemma_sort_key_same(a, b, batches, pl, strategy, q[j]);
    }
}

/// Taking the front of a queue that holds every ready operation and is
/// ordered by tie rank among equal keys keeps the run on its tie rule.
proof fn lemma_tie_step(
    ops0: Seq<Operation>,
    ops: Seq<Operation>,
    batches: Seq<Batch>,
    pl: Seq<Time>,
    strategy: SortStrategy,
    order: Seq<usize>,
    newly: Seq<bool>,
    qpre: Seq<usize>,
    group_count: int,
)
    requires
        follows_ties(ops0, batches, pl, strategy, order),
        graph_wf(ops0, batches.len() as int, group_count),
        same_problem(ops0, ops),
        keeps_placed(ops0, ops),
        newly.len() == ops0.len(),
        forall|i: int| 0 <= i < ops0.len() ==> (#[trigger] newly[i] <==> (ops0[i].scheduled_span is None
            && ops[i].scheduled_span is Some)),
        forall|i: int| 0 <= i < ops0.len() ==> (#[trigger] newly[i] <==> order.contains(i as usize)),
        forall|k: int, q: int| 0 <= k < order.len() && 0 <= q < preds(ops, order[k] as int).len()
            && (#[trigger] ops0[preds(ops, order[k] as int)[q] as int]).scheduled_span is None
            ==> order.take(k).contains(preds(ops, order[k] as int)[q]),
        forall|k: int| 0 <= k < order.len() ==> #[trigger] order[k] < ops0.len(),
        ranks_follow(qpre, ops0, batches, pl, strategy, |e: usize| tie_rank(ops0, order, e)),
        qpre.len() > 0,
        forall|k: int| 0 <= k < qpre.len() ==> #[trigger] qpre[k] < ops0.len() && ready(ops, qpre[k] as int),
        forall|i: int| 0 <= i < ops0.len() && #[trigger] ready(ops, i) ==> qpre.contains(i as usize),
    ensures
        follows_ties(ops0, batches, pl, strategy, order.push(qpre[0])),
{
    let x = qpre[0];
    let no = order.push(x);
    let n0 = order.len() as int;
    // an operation ready now has its unplaced predecessors in `order`
    assert forall|y: int| 0 <= y < ops0.len() && #[trigger] ready(ops, y) implies
        (forall|q: int| 0 <= q < preds(ops0, y).len() && ops0[preds(ops0, y)[q] as int].scheduled_span is None
            ==> order.contains(#[trigger] preds(ops0, y)[q])) by {
        assert(ops0[y].predecessor_ids@ == ops[y].predecessor_ids@);
        assert forall|q: int| 0 <= q < preds(ops0, y).len() && ops0[preds(ops0, y)[q] as int].scheduled_span is None
            implies order.contains(#[trigger] preds(ops0, y)[q]) by {
            let p = preds(ops0, y)[q];
            assert(p < ops0.len());
            assert(ops[preds(ops, y)[q] as int].scheduled_span is Some);
            assert(newly[p as int]);
        }
    }
    assert forall|k: int, j: int| 0 <= k < no.len() && #[trigger] ready_at(ops0, no, k, j) && j != no[k] as int
        && sort_key(ops0, batches, pl, strategy, no[k]) == sort_key(ops0, batches, pl, strategy, j as usize)
        implies rank_lt(tie_rank(ops0, no, no[k]), tie_rank(ops0, no, j as usize)) by {
        if k < n0 {
            assert(no.take(k) =~= order.take(k));
            assert(no[k] == order[k]);
            assert(ready_at(ops0, order, k, j));
            let ok = order[k];
            assert(ops0[ok as int].predecessor_ids@ == ops[ok as int].predecessor_ids@);
            assert forall|q: int| 0 <= q < preds(ops0, ok as int).len() && ops0[preds(ops0, ok as int)[q] as int].scheduled_span is None
                implies order.contains(#[trigger] preds(ops0, ok as int)[q]) by {
                assert(order.take(k).contains(preds(ops, ok as int)[q]));
                let w = choose|w: int| 0 <= w < order.take(k).len() && order.take(k)[w] == preds(ops, ok as int)[q];
                assert(order[w] == order.take(k)[w]);
            }
            lemma_tie_rank_push(ops0, order, x, ok);
            assert forall|q: int| 0 <= q < preds(ops0, j).len() && ops0[preds(ops0, j)[q] as int].scheduled_span is None
                implies order.contains(#[trigger] preds(ops0, j)[q]) by {
                assert(order.take(k).contains(preds(ops0, j)[q]));
                let w = choose|w: int| 0 <= w < order.take(k).len() && order.take(k)[w] == preds(ops0, j)[q];
                assert(order[w] == order.take(k)[w]);
            }
            lemma_tie_rank_push(ops0, order, x, j as usize);
        } else {
            assert(no.take(k) =~= order);
            assert(no[k] == x);
            assert(!newly[j]);
            assert(ops[j].scheduled_span is None);
            assert forall|q: int| 0 <= q < preds(ops, j).len()
                implies (#[trigger] ops[preds(ops, j)[q] as int]).scheduled_span is Some by {
                assert(ops0[j].predecessor_ids@ == ops[j].predecessor_ids@);
                let p = preds(ops0, j)[q];
                assert(p < ops0.len());
                if ops0[p as int].scheduled_span is None {
                    assert(order.contains(p));
                    assert(newly[p as int]);
                }
            }
            assert(ready(ops, j));
            assert(qpre.contains(j as usize));
            let m = choose|m: int| 0 <= m < qpre.len() && qpre[m] == j as usize;
            assert(m != 0);
            assert(rank_lt(tie_rank(ops0, order, qpre[0]), tie_rank(ops0, order, qpre[m])));
            assert(ready(ops, x as int));
            lemma_tie_rank_push(ops0, order, x, x);
            lemma_tie_rank_push(ops0, order, x, j as usize);
        }
    }
}

/// After `x` is placed as step `order.len()`, the queue that keeps the
/// operations waiting before and appends those `x` made ready, in the order
/// of the successors of `x`, is ordered by tie rank among equal keys.
proof fn lemma_tie_queue(
    ops0: Seq<Operation>,
    batches: Seq<Batch>,
    pl: Seq<Time>,
    strategy: SortStrategy,
    order: Seq<usize>,
    x: usize,
    q0: Seq<usize>,
    qs: Seq<usize>,
)
    requires
        !order.contains(x),
        ops0[x as int].scheduled_span is None,
        ranks_follow(q0, ops0, batches, pl, strategy, |e: usize| tie_rank(ops0, order, e)),
        forall|a: int| 0 <= a < q0.len() ==> forall|q: int| 0 <= q < preds(ops0, #[trigger] q0[a] as int).len()
            && ops0[preds(ops0, q0[a] as int)[q] as int].scheduled_span is None
            ==> order.contains(#[trigger] preds(ops0, q0[a] as int)[q]),
        qs.len() >= q0.len(),
        qs.take(q0.len() as int) == q0,
        forall|a: int| q0.len() <= a < qs.len() ==> {
            let e = #[trigger] qs[a];
            &&& preds(ops0, e as int).contains(x)
            &&& forall|q: int| 0 <= q < preds(ops0, e as int).len() && ops0[preds(ops0, e as int)[q] as int].scheduled_span is None
                ==> order.push(x).contains(#[trigger] preds(ops0, e as int)[q])
        },
        forall|a: int, b: int| q0.len() <= a < b < qs.len()
            ==> first_pos(succs(ops0, x as int), #[trigger] qs[a]) < first_pos(succs(ops0, x as int), #[trigger] qs[b]),
    ensures
        ranks_follow(qs, ops0, batches, pl, strategy, |e: usize| tie_rank(ops0, order.push(x), e)),
{
    let no = order.push(x);
    let k = order.len() as int;
    lemma_first_pos(no, x);
    assert(no[k] == x);
    assert(first_pos(no, x) == k) by {
        if first_pos(no, x) < k {
            assert(no[first_pos(no, x)] == order[first_pos(no, x)]);
        }
    }
    assert forall|a: int| 0 <= a < q0.len() implies #[trigger] tie_rank(ops0, no, q0[a]) == tie_rank(ops0, order, q0[a])
        && tie_rank(ops0, order, q0[a]).0 <= k by {
        lemma_tie_rank_push(ops0, order, x, q0[a]);
    }
    assert forall|a: int| q0.len() <= a < qs.len() implies #[trigger] tie_rank(ops0, no, qs[a])
        == (k + 1, first_pos(succs(ops0, x as int), qs[a])) by {
        let e = qs[a];
        let ps = preds(ops0, e as int);
        lemma_ready_step(ops0, no, ps);
        let qx = choose|q: int| 0 <= q < ps.len() && ps[q] == x;
        assert(first_pos(no, ps[qx]) + 1 <= ready_step(ops0, no, ps));
        if ready_step(ops0, no, ps) != 0 {
            let q = choose|q: int| 0 <= q < ps.len()
                && ops0[ps[q] as int].scheduled_span is None && ready_step(ops0, no, ps) == first_pos(no, #[trigger] ps[q]) + 1;
            assert(no.contains(ps[q]));
            lemma_first_pos(no, ps[q]);
        }
    }
    assert forall|i: int, j: int| 0 <= i < j < qs.len()
        && sort_key(ops0, batches, pl, strategy, #[trigger] qs[i]) == sort_key(ops0, batches, pl, strategy, #[trigger] qs[j])
        implies rank_lt(tie_rank(ops0, no, qs[i]), tie_rank(ops0, no, qs[j])) by {
        if j < q0.len() {
            assert(qs[i] == q0[i] && qs[j] == q0[j]);
        } else if i < q0.len() {
            assert(qs[i] == q0[i]);
        }
    }
}

/// Keys read only what a change of placements keeps.
pub proof fn lemma_sort_key_same(
    a: Seq<Operation>,
    b: Seq<Operation>,
    batches: Seq<Batch>,
    pl: Seq<Time>,
    strategy: SortStrategy,
    id: usize,
)
    requires
        same_problem(a, b),
        id < a.len(),
        forall|q: int| 0 <= q < succs(a, id as int).len() ==> #[trigger] succs(a, id as int)[q] < a.len(),
    ensures
        sort_key(a, batches, pl, strategy, id) == sort_key(b, batches, pl, strategy, id),
{
    assert(a[id as int].successor_ids@ == b[id as int].successor_ids@);
    assert(succs(a, id as int) == succs(b, id as int));
    lemma_same_problem_dur_sum(a, b, succs(a, id as int));
}

/// Taking the front of a queue that is sorted by key and holds every ready
/// operation keeps the run on its priority rule.
proof fn lemma_priority_step(
    ops0: Seq<Operation>,
    ops: Seq<Operation>,
    batches: Seq<Batch>,
    pl: Seq<Time>,
    strategy: SortStrategy,
    order: Seq<usize>,
    newly: Seq<bool>,
    qpre: Seq<usize>,
    group_count: int,
)
    requires
        follows_priority(ops0, batches, pl, strategy, order),
        graph_wf(ops0, batches.len() as int, group_count),
        same_problem(ops0, ops),
        keeps_placed(ops0, ops),
        newly.len() == ops0.len(),
        forall|i: int| 0 <= i < ops0.len() ==> (#[trigger] newly[i] <==> (ops0[i].scheduled_span is None
            && ops[i].scheduled_span is Some)),
        forall|i: int| 0 <= i < ops0.len() ==> (#[trigger] newly[i] <==> order.contains(i as usize)),
        sorted_by_key(qpre, ops, batches, pl, strategy),
        qpre.len() > 0,
        forall|k: int| 0 <= k < qpre.len() ==> #[trigger] qpre[k] < ops0.len(),
        forall|i: int| 0 <= i < ops0.len() && #[trigger] ready(ops, i) ==> qpre.contains(i as usize),
    ensures
        follows_priority(ops0, batches, pl, strategy, order.push(qpre[0])),
{
    let x = qpre[0];
    let no = order.push(x);
    let n0 = order.len() as int;
    assert forall|k: int, j: int| 0 <= k < no.len() && #[trigger] ready_at(ops0, no, k, j)
        implies key_le(sort_key(ops0, batches, pl, strategy, no[k]), sort_key(ops0, batches, pl, strategy, j as usize)) by {
        if k < n0 {
            assert(no.take(k) =~= order.take(k));
            assert(no[k] == order[k]);
            assert(ready_at(ops0, order, k, j));
        } else {
            assert(no.take(k) =~= order);
            assert(no[k] == x);
            assert(!newly[j]);
            assert(ops[j].scheduled_span is None);
            assert forall|q: int| 0 <= q < preds(ops, j).len()
                implies (#[trigger] ops[preds(ops, j)[q] as int]).scheduled_span is Some by {
                assert(ops0[j].predecessor_ids@ == ops[j].predecessor_ids@);
                let p = preds(ops0, j)[q];
                assert(p < ops0.len());
                if ops0[p as int].scheduled_span is None {
                    assert(order.contains(p));
                    assert(newly[p as int]);
                }
            }
            assert(ready(ops, j));
            assert(qpre.contains(j as usize));
            let m = choose|m: int| 0 <= m < qpre.len() && qpre[m] == j as usize;
            if m > 0 {
                assert(key_le(sort_key(ops, batches, pl, strategy, qpre[0]), sort_key(ops, batches, pl, strategy, qpre[m])));
            }
            lemma_sort_key_same(ops0, ops, batches, pl, strategy, x);
            lemma_sort_key_same(ops0, ops, batches, pl, strategy, j as usize);
        }
    }
}

/// The operations placed by the run so far are exactly those of `order`.
pub open spec fn serial_progress(
    before: Seq<Operation>,
    after: Seq<Operation>,
    batches: Seq<Batch>,
    groups0: Seq<ResourceGroup>,
    groups: Seq<ResourceGroup>,
    order: Seq<usize>,
    newly: Seq<bool>,
) -> bool {
    &&& serial_order(before, after, batches, groups0, groups, order)
    &&& forall|i: int| 0 <= i < before.len() ==> (#[trigger] newly[i] <==> order.contains(i as usize))
}

/// `earliest_of` reads only the spans of the predecessors.
proof fn lemma_earliest_frame(ops: Seq<Operation>, ops1: Seq<Operation>, batches: Seq<Batch>, y: int)
    requires
        0 <= y < ops.len(),
        ops.len() == ops1.len(),
        ops1[y].predecessor_ids@ == ops[y].predecessor_ids@,
        ops1[y].assigned_batch_id == ops[y].assigned_batch_id,
        forall|q: int| 0 <= q < preds(ops, y).len() ==> #[trigger] ops1[preds(ops, y)[q] as int] == ops[preds(ops, y)[q] as int],
    ensures
        earliest_of(ops1, batches, y) == earliest_of(ops, batches, y),
{
    assert(preds(ops1, y) == preds(ops, y));
    assert forall|k: int| 0 <= k < preds(ops, y).len() implies end_or_zero(ops[#[trigger] preds(ops, y)[k] as int])
        == end_or_zero(ops1[preds(ops, y)[k] as int]) by {}
    crate::placement::lemma_max_end_of_frame(ops, ops1, preds(ops, y));
}

/// Placing the ready operation `x` on its best resource from its earliest
/// start extends the order of the run by `x`.
proof fn lemma_serial_order_step(
    before: Seq<Operation>,
    ops: Seq<Operation>,
    ops1: Seq<Operation>,
    batches: Seq<Batch>,
    groups0: Seq<ResourceGroup>,
    groups: Seq<ResourceGroup>,
    groups1: Seq<ResourceGroup>,
    order: Seq<usize>,
    newly: Seq<bool>,
    x: usize,
    rid: usize,
    span: Span,
)
    requires
        serial_progress(before, ops, batches, groups0, groups, order, newly),
        graph_wf(ops, batches.len() as int, groups0.len() as int),
        same_problem(before, ops),
        groups_extended(groups0, groups),
        newly.len() == before.len(),
        forall|i: int| 0 <= i < before.len() ==> (#[trigger] newly[i] <==> (before[i].scheduled_span is None
            && ops[i].scheduled_span is Some)),
        keeps_placed(before, ops),
        x < ops.len(),
        ready(ops, x as int),
        before[x as int].scheduled_span is None,
        placed_one(ops, ops1, x as int, rid, span),
        allocated_one(groups, groups1, ops[x as int].assigned_resource_group_id as int, rid as int, span),
        is_best_resource(groups[ops[x as int].assigned_resource_group_id as int].resources@,
            ops[x as int].duration as int, earliest_of(ops, batches, x as int), rid as int, span.start as int),
    ensures
        serial_progress(before, ops1, batches, groups0, groups1, order.push(x), newly.update(x as int, true)),
{
    let n = ops.len() as int;
    let no = order.push(x);
    assert(!newly[x as int]);
    assert(!order.contains(x));
    lemma_greedy_step(ops, ops1, groups0, groups, groups1, order, x, rid, span, earliest_of(ops, batches, x as int));
    // earliest starts of placed operations do not move
    assert forall|k: int| 0 <= k < no.len() implies earliest_of(ops1, batches, #[trigger] no[k] as int)
        == earliest_of(ops, batches, no[k] as int) by {
        let y = no[k] as int;
        if k < order.len() {
            assert(no[k] == order[k]);
            assert(newly[y]);
            assert(y != x as int);
        }
        assert forall|q: int| 0 <= q < preds(ops, y).len() implies #[trigger] ops1[preds(ops, y)[q] as int] == ops[preds(ops, y)[q] as int] by {
            let p = preds(ops, y)[q] as int;
            assert(p < n);
            if p == x as int {
                if y == x as int {
                    assert(ops[p].scheduled_span is Some);
                } else {
                    // a predecessor of a placed operation is placed
                    assert(newly[y]);
                    if before[y].scheduled_span is None {
                        assert(order.contains(y as usize));
                        let kk = choose|kk: int| 0 <= kk < order.len() && order[kk] == y as usize;
                        assert(best_after(ops, groups0, order, kk, earliest_of(ops, batches, order[kk] as int)));
                        if before[p].scheduled_span is None {
                            assert(order.take(kk).contains(preds(ops, order[kk] as int)[q]));
                            let j = choose|j: int| 0 <= j < order.take(kk).len() && order.take(kk)[j] == preds(ops, order[kk] as int)[q];
                            assert(order[j] == x);
                        }
                    }
                }
            }
        }
        lemma_earliest_frame(ops, ops1, batches, y);
    }
    assert forall|k: int| 0 <= k < no.len() implies #[trigger] best_after(ops1, groups0, no, k, earliest_of(ops1, batches, no[k] as int)) by {
        if k < order.len() {
            assert(no[k] == order[k]);
            assert(best_after(ops, groups0, order, k, earliest_of(ops, batches, order[k] as int)));
        }
    }
    assert forall|k: int, q: int| 0 <= k < no.len() && 0 <= q < preds(ops1, no[k] as int).len()
        && (#[trigger] before[preds(ops1, no[k] as int)[q] as int]).scheduled_span is None
        implies no.take(k).contains(preds(ops1, no[k] as int)[q]) by {
        let y = no[k] as int;
        assert(preds(ops1, y) == preds(ops, y));
        let p = preds(ops, y)[q];
        if k < order.len() {
            assert(no[k] == order[k]);
            assert(no.take(k) =~= order.take(k));
        } else {
            assert(y == x as int);
            assert(no.take(k) =~= order);
            assert(p < n);
            assert(ops[p as int].scheduled_span is Some);
            assert(newly[p as int]);
        }
    }
    assert(no.no_duplicates()) by {
        assert forall|a: int, b: int| 0 <= a < no.len() && 0 <= b < no.len() && a != b implies no[a] != no[b] by {
            if a == order.len() {
                assert(order.contains(no[b]));
            } else if b == order.len() {
                assert(order.contains(no[a]));
            } else {
                assert(no[a] == order[a] && no[b] == order[b]);
            }
        }
    }
    assert forall|i: int| 0 <= i < before.len() implies (#[trigger] newly.update(x as int, true)[i] <==> no.contains(i as usize)) by {
        if i == x as int {
            assert(no[order.len() as int] == x);
        } else {
            if no.contains(i as usize) {
                let j = choose|j: int| 0 <= j < no.len() && no[j] == i as usize;
                if j < order.len() {
                    assert(order[j] == i as usize);
                }
            }
            if order.contains(i as usize) {
                let j = choose|j: int| 0 <= j < order.len() && order[j] == i as usize;
                assert(no[j] == i as usize);
            }
        }
    }
}

impl Schedule {
    /// The later of the operation's batch start and the latest end of its
    /// predecessors (an unplaced predecessor counts as ending at 0).
    fn earliest_start(&self, operation_id: OperationId) -> (t: Time)
        requires
            operation_id < self.operations@.len(),
            preds_in_range(self.operations@, operation_id as int),
            self.operations@[operation_id as int].assigned_batch_id < self.batches@.len(),
        ensures
            t == if max_end_of(self.operations@, preds(self.operations@, operation_id as int))
                >= self.batches@[self.operations@[operation_id as int].assigned_batch_id as int].start_time {
                max_end_of(self.operations@, preds(self.operations@, operation_id as int))
            } else {
                self.batches@[self.operations@[operation_id as int].assigned_batch_id as int].start_time as int
            },
    {
        let ghost ops = self.operations@;
        let np = self.operations[operation_id].predecessor_ids.len();
        let mut m: Time = 0;
        let mut j: usize = 0;
        while j < np
            invariant
                ops == self.operations@,
                preds_in_range(ops, operation_id as int),
                operation_id < ops.len(),
                np == preds(ops, operation_id as int).len(),
                0 <= j <= np,
                m == max_end_of(ops, preds(ops, operation_id as int).take(j as int)),
            decreases np - j,
        {
            let p = self.operations[operation_id].predecessor_ids[j];
            proof {
                lemma_max_end_of_take(ops, preds(ops, operation_id as int), j as int);
                assert(preds(ops, operation_id as int)[j as int] < ops.len());
            }
            let e: Time = match self.operations[p].scheduled_span {
                Some(span) => span.end,
                None => 0,
            };
            if e > m {
                m = e;
            }
            j = j + 1;
        }
        proof {
            assert(preds(ops, operation_id as int).take(np as int) =~= preds(ops, operation_id as int));
        }
        let b = self.batches[self.operations[operation_id].assigned_batch_id].start_time;
        if m >= b { m } else { b }
    }

    /// Whether every predecessor of the operation is placed.
    pub(crate) fn all_predecessors_scheduled(&self, operation_id: OperationId) -> (r: bool)
        requires
            operation_id < self.operations@.len(),
            preds_in_range(self.operations@, operation_id as int),
        ensures
            r == forall|q: int| 0 <= q < preds(self.operations@, operation_id as int).len()
                ==> (#[trigger] self.operations@[preds(self.operations@, operation_id as int)[q] as int]).scheduled_span is Some,
    {
        let ghost ops = self.operations@;
        let np = self.operations[operation_id].predecessor_ids.len();
        let mut j: usize = 0;
        while j < np
            invariant
                ops == self.operations@,
                preds_in_range(ops, operation_id as int),
                operation_id < ops.len(),
                np == preds(ops, operation_id as int).len(),
                0 <= j <= np,
                forall|q: int| 0 <= q < j ==> (#[trigger] ops[preds(ops, operation_id as int)[q] as int]).scheduled_span is Some,
            decreases np - j,
        {
            let p = self.operations[operation_id].predecessor_ids[j];
            proof {
                assert(preds(ops, operation_id as int)[j as int] < ops.len());
            }
            if !self.operations[p].is_scheduled() {
                return false;
            }
            j = j + 1;
        }
        true
    }

    /// The ids of the operations that are not placed but whose predecessors
    /// all are, in index order.
    fn get_eligible_operation_ids(&self) -> (q: VecDeque<OperationId>)
        requires
            forall|i: int| 0 <= i < self.operations@.len() ==> #[trigger] preds_in_range(self.operations@, i),
        ensures
            q@ == ready_ids(self.operations@, self.operations@.len() as int),
    {
        let ghost ops = self.operations@;
        let n = self.operations.len();
        let mut q: VecDeque<OperationId> = VecDeque::new();
        let mut i: usize = 0;
        while i < n
            invariant
                ops == self.operations@,
                forall|v: int| 0 <= v < ops.len() ==> #[trigger] preds_in_range(ops, v),
                n == ops.len(),
                0 <= i <= n,
                q@ == ready_ids(ops, i as int),
            decreases n - i,
        {
            if !self.operations[i].is_scheduled() && self.all_predecessors_scheduled(i) {
                q.push_back(self.operations[i].id);
            }
            i = i + 1;
        }
        q
    }
}

impl Schedule {
    /// Serial schedule generation: repeatedly take the first ready operation
    /// (in strategy order) and place it on the resource of its group that can
    /// start it earliest, no earlier than its batch start and the ends of its
    /// predecessors.
    #[verifier::rlimit(60)]
    #[verifier::spinoff_prover]
    pub fn compute_serial(&mut self, strategy: SortStrategy) -> (r: Result<(), ScheduleError>)
        requires
            old(self).wf(),
            old(self).in_degrees_fit(),
            old(self).horizon_fits(),
            old(self).strategy_fits(strategy),
        ensures
            same_problem(old(self).operations@, final(self).operations@),
            final(self).batches@ == old(self).batches@,
            groups_extended(old(self).resource_groups@, final(self).resource_groups@),
            keeps_placed(old(self).operations@, final(self).operations@),
            r is Ok <==> has_topological_order(old(self).operations@)
                && groups_staffed(old(self).operations@, old(self).resource_groups@),
            r matches Err(e) ==> (e is CycleDetected && !has_topological_order(old(self).operations@))
                || (e matches ScheduleError::CannotAllocate { operation_id } && operation_id < old(self).operations@.len()
                    && old(self).operations@[operation_id as int].scheduled_span is None
                    && old(self).resource_groups@[old(self).operations@[operation_id as int].assigned_resource_group_id as int].resources@.len() == 0),
            r is Ok ==> run_placed_all(old(self).operations@, final(self).operations@, final(self).batches@, final(self).resource_groups@),
            r is Ok ==> execute_time_of(final(self).operations@)
                <= horizon(old(self).operations@, old(self).batches@, old(self).resource_groups@) + total_duration(old(self).operations@),
            !has_topological_order(old(self).operations@) ==> (r matches Err(e) && e is CycleDetected),
            r matches Err(e) && e is CycleDetected ==> *final(self) == *old(self),
            r is Ok ==> (final(self).critical_path_data matches Some(cp)
                && critical_path_consistent(final(self).operations@, final(self).batches@, cp)),
            r is Ok ==> exists|order: Seq<usize>| #[trigger] serial_order(old(self).operations@, final(self).operations@,
                final(self).batches@, old(self).resource_groups@, final(self).resource_groups@, order)
                && takes_unplaced(old(self).operations@, order)
                && (!(strategy is Random) ==> follows_priority(old(self).operations@, old(self).batches@,
                    path_lengths_of(final(self).critical_path_data), strategy, order))
                && (!(strategy is Random) ==> follows_ties(old(self).operations@, old(self).batches@,
                    path_lengths_of(final(self).critical_path_data), strategy, order)),
            r is Ok && (forall|i: int| 0 <= i < old(self).operations@.len() ==> (#[trigger] old(self).operations@[i]).scheduled_span is None)
                ==> (final(self).critical_path_data matches Some(cp)
                    && execute_time_of(final(self).operations@) >= seq_max(cp.earliest_finish@)
                    && forall|v: int| 0 <= v < final(self).operations@.len()
                        ==> (#[trigger] final(self).operations@[v]).scheduled_span->0.start >= cp.earliest_start@[v]),
    {
        let ghost ops0 = self.operations@;
        let ghost batches0 = self.batches@;
        let ghost groups0 = self.resource_groups@;
        let ghost h = horizon(ops0, batches0, groups0);
        let n = self.operations.len();
        proof {
            lemma_horizon(ops0, batches0, groups0);
            assert(crate::sums::max_batch_start(batches0) <= h);
            assert(same_problem(ops0, ops0));
            assert(groups_extended(groups0, groups0)) by {
                assert forall|g: int, r: int| 0 <= g < groups0.len() && 0 <= r < groups0[g].resources@.len()
                    implies (#[trigger] groups0[g].resources@[r]).allocations@.is_prefix_of(groups0[g].resources@[r].allocations@) by {
                    assert(groups0[g].resources@[r].allocations@.subrange(0, groups0[g].resources@[r].allocations@.len() as int)
                        =~= groups0[g].resources@[r].allocations@);
                }
            }
        }
        let cp = match self.compute_critical_path_data() {
            Ok(cp) => cp,
            Err(e) => {
                return Err(e);
            },
        };
        let ghost cp0 = cp;
        self.critical_path_data = Some(cp);
        proof {
            assert(self.critical_path_data == Some(cp0));
        }
        let mut eligible = self.get_eligible_operation_ids();
        proof {
            lemma_ready_ids(self.operations@, n as int);
            lemma_keys_computable(self, strategy, eligible@);
            assert(eligible@.no_duplicates());
        }
        let ghost e0 = eligible@;
        proof {
            // ready from the start: no tie rank but the id, and ids come in increasing order
            let rank0 = |e: usize| tie_rank(ops0, Seq::<usize>::empty(), e);
            assert forall|k: int| 0 <= k < e0.len() implies #[trigger] rank0(e0[k]) == (0int, e0[k] as int) by {
                let y = e0[k];
                lemma_ready_step(ops0, Seq::<usize>::empty(), preds(ops0, y as int));
                if ready_step(ops0, Seq::<usize>::empty(), preds(ops0, y as int)) != 0 {
                    let q = choose|q: int| 0 <= q < preds(ops0, y as int).len()
                        && ops0[preds(ops0, y as int)[q] as int].scheduled_span is None
                        && ready_step(ops0, Seq::<usize>::empty(), preds(ops0, y as int))
                            == first_pos(Seq::<usize>::empty(), #[trigger] preds(ops0, y as int)[q]) + 1;
                    assert(ready(ops0, y as int));
                    assert(ops0[preds(ops0, y as int)[q] as int].scheduled_span is Some);
                }
            }
            assert(ranks_follow(e0, ops0, batches0, cp0.path_lengths@, strategy, rank0));
            crate::strategy::lemma_stable_sort_ranks(e0, ops0, batches0, cp0.path_lengths@, strategy, rank0);
        }
        sort_queue_by_strategy(&self.operations, &self.batches, &self.critical_path_data, &mut eligible, strategy);
        proof {
            crate::strategy::lemma_stable_sort(e0, self.operations@, self.batches@, path_lengths_of(self.critical_path_data), strategy);
            lemma_permutation(e0, eligible@);
            assert forall|k: int| 0 <= k < eligible@.len() implies #[trigger] eligible@[k] < n
                && ready(self.operations@, eligible@[k] as int) by {
                assert(eligible@.contains(eligible@[k]));
                assert(e0.contains(eligible@[k]));
            }
            lemma_sum_dur_le_total(ops0, crate::schedule::none_done(n as nat), n as int);
            assert(times_within(ops0, batches0, groups0, h + sum_dur(ops0, crate::schedule::none_done(n as nat), n as int)));
        }
        let ghost mut newly: Seq<bool> = crate::schedule::none_done(n as nat);
        let ghost mut order: Seq<usize> = Seq::empty();
        proof {
            assert(allocations_follow(ops0, groups0, groups0, order));
            assert(serial_progress(ops0, ops0, batches0, groups0, groups0, order, newly));
        }
        loop
            invariant
                serial_progress(ops0, self.operations@, batches0, groups0, self.resource_groups@, order, newly),
                ops0 == old(self).operations@,
                batches0 == old(self).batches@,
                groups0 == old(self).resource_groups@,
                n == ops0.len(),
                same_problem(ops0, self.operations@),
                self.wf(),
                self.strategy_fits(strategy),
                self.batches@ == batches0,
                groups_extended(groups0, self.resource_groups@),
                keeps_placed(ops0, self.operations@),
                has_topological_order(ops0),
                graph_wf(ops0, batches0.len() as int, groups0.len() as int),
                self.critical_path_data matches Some(cp) && cp.path_lengths@.len() == n
                    && critical_path_consistent(ops0, batches0, cp),
                h >= 0,
                h + total_duration(ops0) <= Time::MAX,
                newly.len() == n,
                forall|i: int| 0 <= i < n ==> (#[trigger] newly[i] <==> (ops0[i].scheduled_span is None
                    && self.operations@[i].scheduled_span is Some)),
                forall|i: int| 0 <= i < n && #[trigger] newly[i] ==> placement_ok(self.operations@, batches0, self.resource_groups@, i),
                forall|i: int, j: int| 0 <= i < n && 0 <= j < n && i != j && #[trigger] newly[i] && #[trigger] newly[j]
                    ==> disjoint_on_resources(self.operations@, i, j),
                times_within(self.operations@, batches0, self.resource_groups@, h + sum_dur(ops0, newly, n as int)),
                eligible@.no_duplicates(),
                forall|k: int| 0 <= k < eligible@.len() ==> #[trigger] eligible@[k] < n && ready(self.operations@, eligible@[k] as int),
                forall|i: int| 0 <= i < n && #[trigger] ready(self.operations@, i) ==> eligible@.contains(i as usize),
                self.critical_path_data == Some(cp0),
                !(strategy is Random) ==> sorted_by_key(eligible@, self.operations@, batches0, cp0.path_lengths@, strategy),
                !(strategy is Random) ==> follows_priority(ops0, batches0, cp0.path_lengths@, strategy, order),
                !(strategy is Random) ==> ranks_follow(eligible@, ops0, batches0, cp0.path_lengths@, strategy,
                    |e: usize| tie_rank(ops0, order, e)),
                !(strategy is Random) ==> follows_ties(ops0, batches0, cp0.path_lengths@, strategy, order),
            ensures
                eligible@.len() == 0,
            decreases n - count_true(newly, n as int),
        {
            proof {
                lemma_count_true_bounds(newly, n as int);
            }
            let ghost qpre = eligible@;
            let ghost order0 = order;
            let ghost newly0 = newly;
            let ghost ops = self.operations@;
            let ghost groups = self.resource_groups@;
            let ghost spent = sum_dur(ops0, newly, n as int);
            match eligible.pop_front() {
                None => {
                    break;
                },
                Some(x) => {
                    let ghost q0 = eligible@;
                    proof {
                        assert(x == qpre[0]);
                        if !(strategy is Random) {
                            lemma_priority_step(ops0, ops, batches0, cp0.path_lengths@, strategy, order, newly, qpre,
                                groups0.len() as int);
                            lemma_tie_step(ops0, ops, batches0, cp0.path_lengths@, strategy, order, newly, qpre,
                                groups0.len() as int);
                        }
                        // an operation ready now has its unplaced predecessors in `order`
                        assert forall|y: int| 0 <= y < n && #[trigger] ready(ops, y) implies
                            (forall|q: int| 0 <= q < preds(ops0, y).len() && ops0[preds(ops0, y)[q] as int].scheduled_span is None
                                ==> order0.contains(#[trigger] preds(ops0, y)[q])) by {
                            assert(ops0[y].predecessor_ids@ == ops[y].predecessor_ids@);
                            assert forall|q: int| 0 <= q < preds(ops0, y).len() && ops0[preds(ops0, y)[q] as int].scheduled_span is None
                                implies order0.contains(#[trigger] preds(ops0, y)[q]) by {
                                let p = preds(ops0, y)[q];
                                assert(p < n);
                                assert(ops[preds(ops, y)[q] as int].scheduled_span is Some);
                                assert(newly0[p as int]);
                            }
                        }
                        assert(ready(ops, x as int));
                        assert(!q0.contains(x)) by {
                            if q0.contains(x) {
                                let k = choose|k: int| 0 <= k < q0.len() && q0[k] == x;
                                assert(qpre[k + 1] == x);
                            }
                        }
                        assert(!newly[x as int]);
                        lemma_sum_dur_set(ops0, newly, n as int, x as int);
                        lemma_sum_dur_le_total(ops0, newly.update(x as int, true), n as int);
                        lemma_sum_dur_le_total(ops0, newly, n as int);
                        assert(ops[x as int].duration == ops0[x as int].duration);
                        // bounds on the earliest start
                        assert forall|k: int| 0 <= k < preds(ops, x as int).len()
                            implies end_or_zero(ops[#[trigger] preds(ops, x as int)[k] as int]) <= h + spent by {
                            assert(preds(ops, x as int)[k] < n);
                        }
                        lemma_max_end_of_bound(ops, preds(ops, x as int), h + spent);
                        assert(batches0[ops[x as int].assigned_batch_id as int].start_time <= h + spent);
                    }
                    let est = self.earliest_start(x);
                    let g = self.operations[x].assigned_resource_group_id;
                    let d = self.operations[x].duration;
                    proof {
                        assert(g < groups.len());
                        assert forall|rr: int| 0 <= rr < groups[g as int].resources@.len()
                            implies crate::worker::ends_fit(#[trigger] groups[g as int].resources@[rr].allocations@, d as int) by {
                            assert forall|k: int| 0 <= k < groups[g as int].resources@[rr].allocations@.len()
                                implies #[trigger] groups[g as int].resources@[rr].allocations@[k].end + d <= Time::MAX by {
                                assert(groups[g as int].resources@[rr].allocations@[k].end <= h + spent);
                            }
                        }
                    }
                    match self.resource_groups[g].find_best_resource_for_operation(d, est) {
                        None => {
                            proof {
                                assert(ops0[x as int].scheduled_span is None);
                                assert(groups0[g as int].resources@.len() == 0);
                                assert(ops0[x as int].assigned_resource_group_id == g);
                            }
                            return Err(ScheduleError::CannotAllocate { operation_id: x });
                        },
                        Some((rid, span)) => {
                            let ghost allocs = groups[g as int].resources@[rid as int].allocations@;
                            proof {
                                lemma_free_start(allocs, d as int, est as int);
                                lemma_max_end_bounds(allocs);
                                assert(span.start <= h + spent) by {
                                    if span.start != est {
                                        if allocs.len() > 0 {
                                            let k = choose|k: int| 0 <= k < allocs.len() && allocs[k].end == crate::worker::max_end(allocs);
                                            assert(allocs[k].end <= h + spent);
                                        }
                                    }
                                }
                            }
                            self.resource_groups[g].allocate_resource(rid, span);
                            self.operations[x].assigned_resource_id = Some(rid);
                            self.operations[x].scheduled_span = Some(span);
                            let ghost new_newly = newly.update(x as int, true);
                            proof {
                                let ops1 = self.operations@;
                                let groups1 = self.resource_groups@;
                                assert forall|i: int| 0 <= i < n && i != x implies #[trigger] ops1[i] == ops[i] by {}
                                assert forall|gg: int| 0 <= gg < groups.len() && gg != g implies #[trigger] groups1[gg] == groups[gg] by {}
                                // same problem, well formed
                                assert(same_problem(ops0, ops1)) by {
                                    assert forall|i: int| 0 <= i < ops0.len() implies {
                                        &&& (#[trigger] ops0[i]).id == ops1[i].id
                                        &&& ops0[i].duration == ops1[i].duration
                                        &&& ops0[i].assigned_batch_id == ops1[i].assigned_batch_id
                                        &&& ops0[i].assigned_resource_group_id == ops1[i].assigned_resource_group_id
                                        &&& ops0[i].predecessor_ids@ == ops1[i].predecessor_ids@
                                        &&& ops0[i].successor_ids@ == ops1[i].successor_ids@
                                    } by {
                                        if i != x {
                                            assert(ops1[i] == ops[i]);
                                        }
                                    }
                                }
                                lemma_same_problem_wf(ops0, ops1, batches0.len() as int, groups0.len() as int);
                                assert forall|v: int| 0 <= v < ops1.len() implies #[trigger] crate::strategy::succ_dur_sum(ops1, v)
                                    == crate::strategy::succ_dur_sum(ops0, v) by {
                                    assert(succs(ops1, v) == succs(ops0, v));
                                    lemma_same_problem_dur_sum(ops0, ops1, succs(ops0, v));
                                }
                                assert forall|v: int| 0 <= v < ops.len() implies #[trigger] crate::strategy::succ_dur_sum(ops, v)
                                    == crate::strategy::succ_dur_sum(ops0, v) by {
                                    assert(succs(ops, v) == succs(ops0, v));
                                    lemma_same_problem_dur_sum(ops0, ops, succs(ops0, v));
                                }
                                assert(placed_one(ops, ops1, x as int, rid, span));
                                assert(allocated_one(groups, groups1, g as int, rid as int, span));
                                assert forall|q: int| 0 <= q < preds(ops, x as int).len() implies {
                                    let p = #[trigger] preds(ops, x as int)[q] as int;
                                    &&& 0 <= p < ops.len()
                                    &&& ops[p].scheduled_span matches Some(ps) && ps.end <= span.start
                                } by {
                                    let p = preds(ops, x as int)[q] as int;
                                    assert(preds(ops, x as int)[q] < n);
                                    assert(ops[p].scheduled_span is Some);
                                    lemma_max_end_of_ge(ops, preds(ops, x as int), q);
                                }
                                assert forall|i: int| 0 <= i < ops.len() && #[trigger] newly[i] implies ops[i].scheduled_span is Some by {}
                                lemma_place_step(ops, ops1, batches0, groups, groups1, newly, x as int, rid, span, h + spent);
                                let spent1 = sum_dur(ops0, new_newly, n as int);
                                assert(spent1 == spent + d);
                                assert forall|i: int| 0 <= i < n implies (#[trigger] new_newly[i] <==> (ops0[i].scheduled_span is None
                                    && ops1[i].scheduled_span is Some)) by {
                                    if i != x {
                                        assert(ops1[i] == ops[i]);
                                    }
                                }
                                assert(keeps_placed(ops0, ops1)) by {
                                    assert forall|i: int| 0 <= i < ops0.len() && (#[trigger] ops0[i]).scheduled_span is Some
                                        implies ops1[i].scheduled_span == ops0[i].scheduled_span
                                            && ops1[i].assigned_resource_id == ops0[i].assigned_resource_id by {
                                        if i == x {
                                            assert(ops[x as int].scheduled_span is None);
                                        } else {
                                            assert(ops1[i] == ops[i]);
                                        }
                                    }
                                }
                                lemma_count_true_set(newly, n as int, x as int);
                                lemma_count_true_bounds(new_newly, n as int);
                                assert(self.strategy_fits(strategy)) by {
                                    if strategy is LongestSuccessorDuration || strategy is ShortestSuccessorDuration {
                                        assert forall|v: int| 0 <= v < ops1.len() implies #[trigger] crate::strategy::succ_dur_sum(ops1, v) <= Time::MAX by {
                                            assert(crate::strategy::succ_dur_sum(ops, v) <= Time::MAX);
                                        }
                                    }
                                }
                                assert(earliest_of(ops, batches0, x as int) == est as int);
                                lemma_serial_order_step(ops0, ops, ops1, batches0, groups0, groups, groups1, order, newly, x, rid, span);
                                order = order.push(x);
                                newly = new_newly;
                                lemma_without_absent(q0, x);
                                // the ready operations not yet queued are successors of x
                                assert forall|u: int| 0 <= u < n && #[trigger] ready(ops1, u)
                                    implies q0.contains(u as usize) || succs(ops1, x as int).contains(u as usize) by {
                                    assert(u != x);
                                    if ready(ops, u) {
                                        assert(qpre.contains(u as usize));
                                        let k = choose|k: int| 0 <= k < qpre.len() && qpre[k] == u as usize;
                                        assert(k != 0);
                                        assert(q0[k - 1] == u as usize);
                                    } else {
                                        let q = choose|q: int| 0 <= q < preds(ops, u).len()
                                            && (#[trigger] ops[preds(ops, u)[q] as int]).scheduled_span is None;
                                        let p = preds(ops, u)[q];
                                        assert(preds(ops1, u)[q] == p);
                                        assert(ops1[p as int].scheduled_span is Some);
                                        assert(p == x);
                                        assert(preds(ops0, u).contains(x));
                                        lemma_mirror(ops0, batches0.len() as int, groups0.len() as int, x, u as usize);
                                        assert(succs(ops1, x as int) == succs(ops0, x as int));
                                    }
                                }
                                assert forall|k: int| 0 <= k < q0.len() implies #[trigger] q0[k] < n && ready(ops1, q0[k] as int) by {
                                    assert(q0[k] == qpre[k + 1]);
                                    let u = q0[k] as int;
                                    assert(ready(ops, u));
                                    assert(u != x);
                                    assert forall|q: int| 0 <= q < preds(ops1, u).len() implies
                                        (#[trigger] ops1[preds(ops1, u)[q] as int]).scheduled_span is Some by {
                                        let p = preds(ops1, u)[q] as int;
                                        assert(preds(ops, u)[q] as int == p);
                                        assert(ops[p].scheduled_span is Some);
                                    }
                                }
                                assert(q0.no_duplicates()) by {
                                    assert forall|a: int, b: int| 0 <= a < q0.len() && 0 <= b < q0.len() && a != b implies q0[a] != q0[b] by {
                                        assert(q0[a] == qpre[a + 1] && q0[b] == qpre[b + 1]);
                                    }
                                }
                            }
                            remove_from_queue(&mut eligible, x);
                            proof {
                                assert(eligible@ == q0);
                                assert(succs(self.operations@, x as int).skip(0) =~= succs(self.operations@, x as int));
                            }
                            let ns = self.operations[x].successor_ids.len();
                            let mut j: usize = 0;
                            while j < ns
                                invariant
                                    n == ops0.len(),
                                    same_problem(ops0, self.operations@),
                                    self.wf(),
                                    self.strategy_fits(strategy),
                                    self.critical_path_data matches Some(cp) && cp.path_lengths@.len() == n
                                        && critical_path_consistent(ops0, batches0, cp),
                                    graph_wf(ops0, batches0.len() as int, groups0.len() as int),
                                    x < n,
                                    ns == succs(self.operations@, x as int).len(),
                                    0 <= j <= ns,
                                    eligible@.no_duplicates(),
                                    forall|k: int| 0 <= k < eligible@.len() ==> #[trigger] eligible@[k] < n
                                        && ready(self.operations@, eligible@[k] as int),
                                    forall|u: int| 0 <= u < n && #[trigger] ready(self.operations@, u)
                                        ==> eligible@.contains(u as usize)
                                            || succs(self.operations@, x as int).skip(j as int).contains(u as usize),
                                    eligible@.len() >= q0.len(),
                                    eligible@.take(q0.len() as int) == q0,
                                    forall|a: int| q0.len() <= a < eligible@.len() ==> {
                                        let e = #[trigger] eligible@[a];
                                        &&& first_pos(succs(ops0, x as int), e) < j
                                        &&& succs(ops0, x as int)[first_pos(succs(ops0, x as int), e)] == e
                                    },
                                    forall|a: int, b: int| q0.len() <= a < b < eligible@.len()
                                        ==> first_pos(succs(ops0, x as int), #[trigger] eligible@[a])
                                            < first_pos(succs(ops0, x as int), #[trigger] eligible@[b]),
                                    forall|jj: int| 0 <= jj < j && #[trigger] ready(self.operations@, succs(ops0, x as int)[jj] as int)
                                        ==> eligible@.contains(succs(ops0, x as int)[jj]),
                                decreases ns - j,
                            {
                                let ghost ops2 = self.operations@;
                                let ghost qb = eligible@;
                                let s = self.operations[x].successor_ids[j];
                                proof {
                                    assert(succs(ops2, x as int)[j as int] == s);
                                    assert(s < n);
                                }
                                proof {
                                    assert(succs(ops2, x as int) == succs(ops0, x as int)) by {
                                        assert(ops2[x as int].successor_ids@ == ops0[x as int].successor_ids@);
                                    }
                                    lemma_first_pos(succs(ops0, x as int), s);
                                    assert(succs(ops0, x as int).contains(s));
                                }
                                if !self.operations[s].is_scheduled() && self.all_predecessors_scheduled(s) && !queue_contains(&eligible, s) {
                                    eligible.push_back(s);
                                    proof {
                                        assert(eligible@ == qb.push(s));
                                        let fp = first_pos(succs(ops0, x as int), s);
                                        assert(fp == j) by {
                                            if fp < j {
                                                assert(ready(ops2, succs(ops0, x as int)[fp] as int));
                                            }
                                            if fp > j {
                                                assert(succs(ops0, x as int)[j as int] != s);
                                            }
                                        }
                                        assert(eligible@.take(q0.len() as int) =~= qb.take(q0.len() as int));
                                        assert forall|a: int| q0.len() <= a < eligible@.len() implies {
                                            let e = #[trigger] eligible@[a];
                                            &&& first_pos(succs(ops0, x as int), e) < j + 1
                                            &&& succs(ops0, x as int)[first_pos(succs(ops0, x as int), e)] == e
                                        } by {
                                            if a < qb.len() {
                                                assert(eligible@[a] == qb[a]);
                                            }
                                        }
                                        assert forall|a: int, b: int| q0.len() <= a < b < eligible@.len()
                                            implies first_pos(succs(ops0, x as int), #[trigger] eligible@[a])
                                                < first_pos(succs(ops0, x as int), #[trigger] eligible@[b]) by {
                                            assert(eligible@[a] == qb[a]);
                                            if b < qb.len() {
                                                assert(eligible@[b] == qb[b]);
                                            }
                                        }
                                        assert(eligible@.no_duplicates()) by {
                                            assert forall|a: int, b: int| 0 <= a < eligible@.len() && 0 <= b < eligible@.len() && a != b
                                                implies eligible@[a] != eligible@[b] by {
                                                if a == qb.len() {
                                                    assert(qb[b] == eligible@[b]);
                                                } else if b == qb.len() {
                                                    assert(qb[a] == eligible@[a]);
                                                }
                                            }
                                        }
                                    }
                                }
                                proof {
                                    assert forall|jj: int| 0 <= jj < j + 1 && #[trigger] ready(ops2, succs(ops0, x as int)[jj] as int)
                                        implies eligible@.contains(succs(ops0, x as int)[jj]) by {
                                        crate::graph::lemma_push_contains(qb, s, succs(ops0, x as int)[jj]);
                                    }
                                    assert forall|u: int| 0 <= u < n && #[trigger] ready(ops2, u)
                                        implies eligible@.contains(u as usize)
                                            || succs(ops2, x as int).skip(j + 1).contains(u as usize) by {
                                        crate::graph::lemma_push_contains(qb, s, u as usize);
                                        if !qb.contains(u as usize) {
                                            let sk = succs(ops2, x as int).skip(j as int);
                                            assert(sk.contains(u as usize));
                                            let k = choose|k: int| 0 <= k < sk.len() && sk[k] == u as usize;
                                            if k == 0 {
                                                assert(u as usize == s);
                                            } else {
                                                assert(succs(ops2, x as int).skip(j + 1)[k - 1] == u as usize);
                                            }
                                        }
                                    }
                                }
                                j = j + 1;
                            }
                        },
                    }
                    proof {
                        lemma_keys_computable(self, strategy, eligible@);
                    }
                    let ghost qs = eligible@;
                    proof {
                        if !(strategy is Random) {
                            let q0 = qpre.skip(1);
                            let rank_old = |e: usize| tie_rank(ops0, order0, e);
                            assert(ranks_follow(q0, ops0, batches0, cp0.path_lengths@, strategy, rank_old)) by {
                                assert forall|i: int, j: int| 0 <= i < j < q0.len()
                                    && sort_key(ops0, batches0, cp0.path_lengths@, strategy, #[trigger] q0[i])
                                        == sort_key(ops0, batches0, cp0.path_lengths@, strategy, #[trigger] q0[j])
                                    implies rank_lt(rank_old(q0[i]), rank_old(q0[j])) by {
                                    assert(q0[i] == qpre[i + 1] && q0[j] == qpre[j + 1]);
                                }
                            }
                            assert(qs.take(q0.len() as int) == q0);
                            assert forall|a: int| 0 <= a < q0.len() implies forall|q: int| 0 <= q < preds(ops0, #[trigger] q0[a] as int).len()
                                && ops0[preds(ops0, q0[a] as int)[q] as int].scheduled_span is None
                                ==> order0.contains(#[trigger] preds(ops0, q0[a] as int)[q]) by {
                                assert(q0[a] == qpre[a + 1]);
                                assert(ready(ops, qpre[a + 1] as int));
                            }
                            let ops1 = self.operations@;
                            assert forall|a: int| q0.len() <= a < qs.len() implies {
                                let e = #[trigger] qs[a];
                                &&& preds(ops0, e as int).contains(x)
                                &&& forall|q: int| 0 <= q < preds(ops0, e as int).len() && ops0[preds(ops0, e as int)[q] as int].scheduled_span is None
                                    ==> order0.push(x).contains(#[trigger] preds(ops0, e as int)[q])
                            } by {
                                let e = qs[a];
                                assert(succs(ops0, x as int).contains(e));
                                lemma_mirror(ops0, batches0.len() as int, groups0.len() as int, x, e);
                                assert(ready(ops1, e as int));
                                assert(ops0[e as int].predecessor_ids@ == ops1[e as int].predecessor_ids@);
                                assert forall|q: int| 0 <= q < preds(ops0, e as int).len() && ops0[preds(ops0, e as int)[q] as int].scheduled_span is None
                                    implies order0.push(x).contains(#[trigger] preds(ops0, e as int)[q]) by {
                                    let p = preds(ops0, e as int)[q];
                                    assert(p < n);
                                    assert(ops1[preds(ops1, e as int)[q] as int].scheduled_span is Some);
                                    if p != x {
                                        assert(ops1[p as int] == ops[p as int]);
                                        assert(newly0[p as int]);
                                        assert(order0.contains(p));
                                        let w = choose|w: int| 0 <= w < order0.len() && order0[w] == p;
                                        assert(order0.push(x)[w] == p);
                                    } else {
                                        assert(order0.push(x)[order0.len() as int] == x);
                                    }
                                }
                            }
                            assert(!order0.contains(x)) by {
                                assert(!newly0[x as int]);
                            }
                            lemma_tie_queue(ops0, batches0, cp0.path_lengths@, strategy, order0, x, q0, qs);
                            assert(order == order0.push(x));
                            let rank_new = |e: usize| tie_rank(ops0, order, e);
                            assert forall|jj: int| 0 <= jj < qs.len() implies #[trigger] qs[jj] < ops0.len() by {}
                            lemma_ranks_follow_same(ops0, self.operations@, batches0, cp0.path_lengths@, strategy, qs, rank_new,
                                groups0.len() as int);
                            crate::strategy::lemma_stable_sort_ranks(qs, self.operations@, batches0, cp0.path_lengths@, strategy, rank_new);
                        }
                    }
                    sort_queue_by_strategy(&self.operations, &self.batches, &self.critical_path_data, &mut eligible, strategy);
                    proof {
                        crate::strategy::lemma_stable_sort(qs, self.operations@, batches0, cp0.path_lengths@, strategy);
                        lemma_permutation(qs, eligible@);
                        assert forall|u: int| 0 <= u < n && #[trigger] ready(self.operations@, u) implies eligible@.contains(u as usize) by {
                            assert(qs.contains(u as usize)) by {
                                if !qs.contains(u as usize) {
                                    let sk = succs(self.operations@, x as int).skip(succs(self.operations@, x as int).len() as int);
                                    assert(sk.len() == 0);
                                }
                            }
                        }
                        assert forall|k: int| 0 <= k < eligible@.len() implies #[trigger] eligible@[k] < n
                            && ready(self.operations@, eligible@[k] as int) by {
                            assert(eligible@.contains(eligible@[k]));
                            assert(qs.contains(eligible@[k]));
                            let k2 = choose|k2: int| 0 <= k2 < qs.len() && qs[k2] == eligible@[k];
                        }
                    }
                },
            }
        }
        proof {
            let ops = self.operations@;
            lemma_sum_dur_le_total(ops0, newly, n as int);
            crate::placement::lemma_execute_time_within(ops, n as int, h + sum_dur(ops0, newly, n as int));
            let done = Seq::new(n as nat, |i: int| ops[i].scheduled_span is Some);
            if exists|u: int| 0 <= u < n && !done[u] {
                let v = lemma_minimal_not_done(ops0, done);
                assert(ready(ops, v as int)) by {
                    assert forall|q: int| 0 <= q < preds(ops, v as int).len() implies
                        (#[trigger] ops[preds(ops, v as int)[q] as int]).scheduled_span is Some by {
                        let p = preds(ops, v as int)[q];
                        assert(preds(ops0, v as int) == preds(ops, v as int));
                        assert(preds(ops0, v as int).contains(p));
                        assert(p < n);
                        lemma_mirror(ops0, batches0.len() as int, groups0.len() as int, p, v);
                        assert(succs(ops0, p as int).contains(v));
                        assert(done[p as int]);
                    }
                }
                assert(eligible@.contains(v));
            }
            assert forall|i: int| 0 <= i < ops.len() implies (#[trigger] ops[i]).scheduled_span is Some by {
                assert(done[i]);
            }
            assert forall|i: int| 0 <= i < ops.len() && (#[trigger] ops0[i]).scheduled_span is None
                implies placement_ok(ops, batches0, self.resource_groups@, i) by {
                assert(newly[i]);
            }
            assert forall|i: int, j: int| 0 <= i < ops.len() && 0 <= j < ops.len() && i != j
                && (#[trigger] ops0[i]).scheduled_span is None && (#[trigger] ops0[j]).scheduled_span is None
                implies disjoint_on_resources(ops, i, j) by {
                assert(newly[i] && newly[j]);
            }
            assert forall|i: int| 0 <= i < ops0.len() && (#[trigger] ops0[i]).scheduled_span is None
                implies groups0[ops0[i].assigned_resource_group_id as int].resources@.len() > 0 by {
                assert(newly[i]);
                assert(placement_ok(ops, batches0, self.resource_groups@, i));
            }
            assert(serial_order(ops0, ops, batches0, groups0, self.resource_groups@, order));
            assert(takes_unplaced(ops0, order)) by {
                assert forall|i: int| 0 <= i < ops0.len() implies ((#[trigger] ops0[i]).scheduled_span is None
                    <==> order.contains(i as usize)) by {
                    assert(newly[i] <==> order.contains(i as usize));
                    assert(ops[i].scheduled_span is Some);
                }
            }
            assert(path_lengths_of(self.critical_path_data) == cp0.path_lengths@);
            assert(serial_order(ops0, ops, batches0, groups0, self.resource_groups@, order)
                && (!(strategy is Random) ==> follows_priority(ops0, batches0, path_lengths_of(self.critical_path_data), strategy, order)));
            let cp = self.critical_path_data->0;
            crate::critical_path::lemma_consistent_same_problem(ops0, ops, batches0, cp);
            if forall|i: int| 0 <= i < ops0.len() ==> (#[trigger] ops0[i]).scheduled_span is None {
                lemma_run_meets_critical_path(ops0, ops, batches0, self.resource_groups@, cp);
            }
        }
        Ok(())
    }
}

/// A run that placed every operation of a problem with nothing placed
/// before starts no operation before its earliest start, and its latest
/// end is at least the project end of the critical path.
pub proof fn lemma_run_meets_critical_path(
    before: Seq<Operation>,
    after: Seq<Operation>,
    batches: Seq<Batch>,
    groups: Seq<ResourceGroup>,
    cp: CriticalPathData,
)
    requires
        graph_wf(before, batches.len() as int, groups.len() as int),
        same_problem(before, after),
        has_topological_order(before),
        critical_path_consistent(before, batches, cp),
        forall|i: int| 0 <= i < before.len() ==> (#[trigger] before[i]).scheduled_span is None,
        run_placed_all(before, after, batches, groups),
        after.len() <= usize::MAX,
    ensures
        critical_path_consistent(after, batches, cp),
        forall|v: int| 0 <= v < after.len() ==> (#[trigger] after[v]).scheduled_span->0.start >= cp.earliest_start@[v],
        execute_time_of(after) >= seq_max(cp.earliest_finish@),
{
    crate::critical_path::lemma_consistent_same_problem(before, after, batches, cp);
    lemma_same_problem_wf(before, after, batches.len() as int, groups.len() as int);
    let order = choose|order: Seq<usize>| crate::graph::is_topological_order(before, order);
    crate::best::lemma_copy_topological(before, after, order);
    assert(crate::critical_path::respects_precedences(after, batches)) by {
        assert forall|v: int| 0 <= v < after.len() implies {
            &&& (#[trigger] after[v]).scheduled_span matches Some(s) && {
                &&& s.wf()
                &&& s.duration == after[v].duration
                &&& s.start >= batches[after[v].assigned_batch_id as int].start_time
                &&& forall|q: int| 0 <= q < preds(after, v).len() ==> {
                    let p = #[trigger] preds(after, v)[q] as int;
                    after[p].scheduled_span matches Some(ps) && ps.end <= s.start
                }
            }
        } by {
            assert(before[v].scheduled_span is None);
            assert(placement_ok(after, batches, groups, v));
        }
    }
    crate::critical_path::lemma_critical_path_bound(after, batches, groups.len() as int, cp);
}

/// Whether the queue holds `x`.
pub(crate) fn queue_contains(queue: &VecDeque<OperationId>, x: OperationId) -> (r: bool)
    ensures
        r == queue@.contains(x),
{
    let n = queue.len();
    let mut i: usize = 0;
    while i < n
        invariant
            n == queue@.len(),
            0 <= i <= n,
            forall|k: int| 0 <= k < i ==> queue@[k] != x,
        decreases n - i,
    {
        if queue[i] == x {
            return true;
        }
        i = i + 1;
    }
    false
}

/// Drops every occurrence of `x` from the queue, keeping the order of the rest.
fn remove_from_queue(queue: &mut VecDeque<OperationId>, x: OperationId)
    ensures
        final(queue)@ == without(old(queue)@, x),
{
    let ghost q0 = queue@;
    let mut kept: VecDeque<OperationId> = VecDeque::new();
    let n = queue.len();
    let mut i: usize = 0;
    while i < n
        invariant
            queue@ == q0,
            n == q0.len(),
            0 <= i <= n,
            kept@ == without(q0.take(i as int), x),
        decreases n - i,
    {
        proof {
            assert(q0.take(i + 1).drop_last() =~= q0.take(i as int));
            assert(q0.take(i + 1).last() == q0[i as int]);
        }
        if queue[i] != x {
            kept.push_back(queue[i]);
        }
        i = i + 1;
    }
    proof {
        assert(q0.take(n as int) =~= q0);
    }
    *queue = kept;
}

} // verus!
