use vstd::prelude::*;
use std::collections::VecDeque;
use vstd::std_specs::iter::IteratorSpec;
use crate::indices::OperationId;
use crate::job::{Batch, Operation};
use crate::time::{Span, Time};
use crate::worker::{all_busy_at, busy_at, is_best_resource, lemma_free_start, lemma_max_end_bounds, overlaps_at, ResourceGroup};
use crate::graph::{graph_wf, has_topological_order, lemma_minimal_not_done, lemma_mirror, preds, succs};
use crate::sums::{count_true, lemma_count_true_bounds, lemma_count_true_set, lemma_sum_dur_le_total, lemma_sum_dur_set, sum_dur, total_duration};
use crate::placement::{allocations_follow, allocs_at, best_after, lemma_allocs_at_push, lemma_greedy_step, earliest_of, root_time, allocated_one, execute_time_of, disjoint_on_resources, end_or_zero, groups_extended, horizon, lemma_horizon, lemma_max_end_of_bound, lemma_max_end_of_ge, lemma_place_step, max_end_of, placed_one, placement_ok, same_problem, times_within};
use crate::strategy::{
    key_le, keys_computable, lemma_stable_sort_push, path_lengths_of, sort_key, sort_queue_by_strategy, sorted_by_key,
    stable_sort_by_key, SortStrategy,
};
use crate::serial::{groups_staffed, ready, run_placed_all, takes_unplaced};
use crate::schedule::{Schedule, ScheduleError};

verus! {

broadcast use vstd::std_specs::btree::group_btree_axioms;

/// Every queue is free of duplicates, and `loc` maps each queued operation
/// to the one time whose queue holds it.
pub open spec fn pending_ok(pm: Map<u32, VecDeque<usize>>, loc: Map<usize, u32>) -> bool {
    &&& forall|k: u32| #[trigger] pm.contains_key(k) ==> pm[k]@.no_duplicates()
    &&& forall|k: u32, i: int| pm.contains_key(k) && 0 <= i < pm[k]@.len()
        ==> loc.contains_key(#[trigger] pm[k]@[i]) && loc[pm[k]@[i]] == k
    &&& forall|x: usize| #[trigger] loc.contains_key(x) ==> pm.contains_key(loc[x]) && pm[loc[x]]@.contains(x)
}

/// Two schedules differ at most in their pending queues.
pub open spec fn same_but_pending(a: &Schedule, b: &Schedule) -> bool {
    &&& a.operations@ == b.operations@
    &&& a.batches@ == b.batches@
    &&& a.resource_groups@ == b.resource_groups@
    &&& a.critical_path_data == b.critical_path_data
}

/// Keys can be computed for every queued operation.
pub open spec fn queues_sortable(s: &Schedule, strategy: SortStrategy) -> bool {
    &&& forall|k: u32| #[trigger] s.pending_operation_ids@.contains_key(k)
        ==> keys_computable(s.operations@, s.batches@, path_lengths_of(s.critical_path_data), strategy, s.pending_operation_ids@[k]@)
    &&& strategy is LongestCriticalPathFirst ==> s.critical_path_data is Some
}

/// The operations below `m` without predecessors whose batch starts at
/// `t`, in increasing order.
pub open spec fn roots_at(ops: Seq<Operation>, batches: Seq<Batch>, t: int, m: int) -> Seq<usize>
    decreases m,
{
    if m <= 0 {
        Seq::empty()
    } else if preds(ops, m - 1).len() == 0 && root_time(ops, batches, m - 1) == t {
        roots_at(ops, batches, t, m - 1).push((m - 1) as usize)
    } else {
        roots_at(ops, batches, t, m - 1)
    }
}

/// A nonempty list of roots for `t` holds a root with that batch start.
proof fn lemma_roots_at_nonempty(ops: Seq<Operation>, batches: Seq<Batch>, t: int, m: int)
    requires
        0 <= m <= usize::MAX,
    ensures
        forall|j: int| 0 <= j < roots_at(ops, batches, t, m).len() ==> #[trigger] roots_at(ops, batches, t, m)[j] < m
            && preds(ops, roots_at(ops, batches, t, m)[j] as int).len() == 0
            && root_time(ops, batches, roots_at(ops, batches, t, m)[j] as int) == t,
    decreases m,
{
    if m > 0 {
        lemma_roots_at_nonempty(ops, batches, t, m - 1);
        let r0 = roots_at(ops, batches, t, m - 1);
        let r = roots_at(ops, batches, t, m);
        assert forall|j: int| 0 <= j < r.len() implies #[trigger] r[j] < m && preds(ops, r[j] as int).len() == 0
            && root_time(ops, batches, r[j] as int) == t by {
            if j < r0.len() {
                assert(r[j] == r0[j]);
            }
        }
    }
}

/// Every queue of `pm` that is new or differs from the one of `pm0` is
/// sorted by the strategy's key.
pub open spec fn changed_sorted(
    pm0: Map<u32, VecDeque<usize>>,
    pm: Map<u32, VecDeque<usize>>,
    ops: Seq<Operation>,
    batches: Seq<Batch>,
    pl: Seq<Time>,
    strategy: SortStrategy,
) -> bool {
    forall|k: u32| #[trigger] pm.contains_key(k) && (!pm0.contains_key(k) || pm[k] != pm0[k])
        ==> sorted_by_key(pm[k]@, ops, batches, pl, strategy)
}

/// Every queued id is an operation.
pub open spec fn queued_in_range(pm: Map<u32, VecDeque<usize>>, n: int) -> bool {
    forall|k: u32, i: int| pm.contains_key(k) && 0 <= i < pm[k]@.len() ==> #[trigger] pm[k]@[i] < n
}

/// What the parallel run keeps of its queues when successors of the
/// operations in `completed` are queued at time `t`: `loc` holds where each
/// queued operation waits; every queued operation is ready, waits no earlier
/// than `t` nor than it can start, and no later than `bound`; no placement
/// ends after `bound` and no batch starts after it; no queued operation
/// follows one of `completed`; and every ready operation is queued or
/// follows one of `completed`.
pub open spec fn queue_bookkeeping(s: &Schedule, loc: Map<usize, u32>, t: int, bound: int, completed: Seq<usize>) -> bool {
    let ops = s.operations@;
    &&& pending_ok(s.pending_operation_ids@, loc)
    &&& queued_ok(ops, s.batches@, loc, t, bound)
    &&& t <= bound <= Time::MAX
    &&& forall|i: int| 0 <= i < ops.len() ==> #[trigger] end_or_zero(ops[i]) <= bound
    &&& forall|b: int| 0 <= b < s.batches@.len() ==> #[trigger] s.batches@[b].start_time <= bound
    &&& forall|x: usize, k: int| #[trigger] loc.contains_key(x) && 0 <= k < completed.len()
        ==> !preds(ops, x as int).contains(#[trigger] completed[k])
    &&& forall|u: int| 0 <= u < ops.len() && #[trigger] ready(ops, u)
        ==> loc.contains_key(u as usize) || exists|k: int| 0 <= k < completed.len()
            && succs(ops, #[trigger] completed[k] as int).contains(u as usize)
}

/// The queue at `k`, or an empty one where there is none.
pub open spec fn queue_at(pm: Map<u32, VecDeque<usize>>, k: u32) -> Seq<usize> {
    if pm.contains_key(k) { pm[k]@ } else { Seq::empty() }
}

/// `added` lists, for each time, the operations newly queued at it, in the
/// order they were queued: each once, exactly those that `new_loc` places
/// at that time and `loc` did not hold.
pub open spec fn newly_queued(added: Map<u32, Seq<usize>>, loc: Map<usize, u32>, new_loc: Map<usize, u32>) -> bool {
    &&& forall|k: u32| #[trigger] added.contains_key(k) ==> added[k].no_duplicates() && added[k].len() > 0
    &&& forall|k: u32, i: int| added.contains_key(k) && 0 <= i < added[k].len()
        ==> new_loc.contains_key(#[trigger] added[k][i]) && !loc.contains_key(added[k][i]) && new_loc[added[k][i]] == k
    &&& forall|x: usize| #[trigger] new_loc.contains_key(x) && !loc.contains_key(x)
        ==> added.contains_key(new_loc[x]) && added[new_loc[x]].contains(x)
}

/// The queues of `pm` are those of `pm0`, but that each time with operations
/// in `added` holds the stable sort of its old queue followed by them.
pub open spec fn resorted_with(
    pm0: Map<u32, VecDeque<usize>>,
    pm: Map<u32, VecDeque<usize>>,
    added: Map<u32, Seq<usize>>,
    ops: Seq<Operation>,
    batches: Seq<Batch>,
    pl: Seq<Time>,
    strategy: SortStrategy,
) -> bool {
    &&& pm.dom() == pm0.dom().union(added.dom())
    &&& forall|k: u32| #[trigger] pm.contains_key(k) ==> if added.contains_key(k) {
            pm[k]@ == stable_sort_by_key(queue_at(pm0, k) + added[k], ops, batches, pl, strategy)
        } else {
            pm[k] == pm0[k]
        }
}

/// Queuing `x` at `t` and re-sorting that queue extends `added` by `x` at
/// `t`, and the queues stay the stable sorts of their old contents followed
/// by what was added. Where `with_bookkeeping` holds, `added` also keeps to
/// what `loc` records of the queues.
proof fn lemma_requeue(
    pm0: Map<u32, VecDeque<usize>>,
    pm: Map<u32, VecDeque<usize>>,
    pm3: Map<u32, VecDeque<usize>>,
    added: Map<u32, Seq<usize>>,
    loc: Map<usize, u32>,
    l0: Map<usize, u32>,
    t: u32,
    x: usize,
    ops: Seq<Operation>,
    bs: Seq<Batch>,
    pl: Seq<Time>,
    strategy: SortStrategy,
    with_bookkeeping: bool,
) -> (added1: Map<u32, Seq<usize>>)
    requires
        with_bookkeeping ==> newly_queued(added, loc, l0),
        with_bookkeeping ==> forall|y: usize| #[trigger] loc.contains_key(y) ==> l0.contains_key(y),
        with_bookkeeping ==> !l0.contains_key(x),
        pm.dom() == pm0.dom().union(added.dom()),
        !(strategy is Random) ==> resorted_with(pm0, pm, added, ops, bs, pl, strategy),
        pm3.dom() == pm.dom().insert(t),
        forall|k: u32| k != t && #[trigger] pm.contains_key(k) ==> pm3[k] == pm[k],
        !(strategy is Random) ==> pm3[t]@ == stable_sort_by_key(
            if pm.contains_key(t) { pm[t]@.push(x) } else { seq![x] }, ops, bs, pl, strategy),
    ensures
        with_bookkeeping ==> newly_queued(added1, loc, l0.insert(x, t)),
        pm3.dom() == pm0.dom().union(added1.dom()),
        !(strategy is Random) ==> resorted_with(pm0, pm3, added1, ops, bs, pl, strategy),
{
    let l = l0.insert(x, t);
    let a0 = if added.contains_key(t) { added[t] } else { Seq::<usize>::empty() };
    let added1 = added.insert(t, a0.push(x));
    if with_bookkeeping {
    assert(!loc.contains_key(x));
    assert(!a0.contains(x)) by {
        if a0.contains(x) {
            let i = choose|i: int| 0 <= i < a0.len() && a0[i] == x;
            assert(l0.contains_key(added[t][i]));
        }
    }
    assert forall|kk: u32| #[trigger] added1.contains_key(kk) implies added1[kk].no_duplicates() && added1[kk].len() > 0 by {
        if kk == t {
            assert forall|a: int, b: int| 0 <= a < a0.len() + 1 && 0 <= b < a0.len() + 1 && a != b
                implies a0.push(x)[a] != a0.push(x)[b] by {
                if a == a0.len() {
                    assert(a0.contains(a0.push(x)[b]));
                } else if b == a0.len() {
                    assert(a0.contains(a0.push(x)[a]));
                }
            }
        }
    }
    assert forall|kk: u32, i: int| added1.contains_key(kk) && 0 <= i < added1[kk].len()
        implies l.contains_key(#[trigger] added1[kk][i]) && !loc.contains_key(added1[kk][i]) && l[added1[kk][i]] == kk by {
        if kk == t {
            if i < a0.len() {
                assert(added1[kk][i] == added[t][i]);
                assert(l0.contains_key(added[t][i]));
            }
        } else {
            assert(added1[kk] == added[kk]);
            assert(l0.contains_key(added[kk][i]));
        }
    }
    assert forall|y: usize| #[trigger] l.contains_key(y) && !loc.contains_key(y)
        implies added1.contains_key(l[y]) && added1[l[y]].contains(y) by {
        if y == x {
            assert(added1[t][a0.len() as int] == x);
        } else {
            assert(l0.contains_key(y));
            assert(added.contains_key(l0[y]) && added[l0[y]].contains(y));
            if l0[y] == t {
                let i = choose|i: int| 0 <= i < a0.len() && a0[i] == y;
                assert(added1[t][i] == y);
            }
        }
    }
    }
    assert(pm3.dom() =~= pm0.dom().union(added1.dom()));
    if !(strategy is Random) {
        assert forall|kk: u32| #[trigger] pm3.contains_key(kk) implies if added1.contains_key(kk) {
            pm3[kk]@ == stable_sort_by_key(queue_at(pm0, kk) + added1[kk], ops, bs, pl, strategy)
        } else {
            pm3[kk] == pm0[kk]
        } by {
            if kk == t {
                let base = queue_at(pm0, t);
                assert(base + a0.push(x) =~= (base + a0).push(x));
                if added.contains_key(t) {
                    lemma_stable_sort_push(base + a0, x, ops, bs, pl, strategy);
                } else {
                    assert(base + a0 =~= base);
                    if !pm.contains_key(t) {
                        assert(seq![x] =~= Seq::<usize>::empty().push(x));
                    }
                }
            }
        }
    }
    added1
}

/// Every pending queue is sorted by the strategy's key.
pub open spec fn queues_sorted(
    pm: Map<u32, VecDeque<usize>>,
    ops: Seq<Operation>,
    batches: Seq<Batch>,
    pl: Seq<Time>,
    strategy: SortStrategy,
) -> bool {
    forall|k: u32| #[trigger] pm.contains_key(k) ==> sorted_by_key(pm[k]@, ops, batches, pl, strategy)
}

/// Sortedness by key does not depend on placements.
proof fn lemma_sorted_same(
    a: Seq<Operation>,
    b: Seq<Operation>,
    batches: Seq<Batch>,
    pl: Seq<Time>,
    strategy: SortStrategy,
    q: Seq<usize>,
    group_count: int,
)
    requires
        same_problem(a, b),
        graph_wf(a, batches.len() as int, group_count),
        forall|j: int| 0 <= j < q.len() ==> #[trigger] q[j] < a.len(),
    ensures
        sorted_by_key(q, a, batches, pl, strategy) <==> sorted_by_key(q, b, batches, pl, strategy),
{
    assert forall|j: int| 0 <= j < q.len() implies #[trigger] sort_key(a, batches, pl, strategy, q[j])
        == sort_key(b, batches, pl, strategy, q[j]) by {
        crate::serial::lemma_sort_key_same(a, b, batches, pl, strategy, q[j]);
    }
}

/// Every predecessor of `y` is placed and started before `v`.
pub open spec fn preds_started_before(ops: Seq<Operation>, y: int, v: int) -> bool {
    forall|q: int| 0 <= q < preds(ops, y).len()
        ==> ((#[trigger] ops[preds(ops, y)[q] as int]).scheduled_span matches Some(s) && s.start < v)
}

/// No resource of the group of operation `y` is free at `v` for its duration.
pub open spec fn blocked_at(ops: Seq<Operation>, groups: Seq<ResourceGroup>, y: int, v: int) -> bool {
    all_busy_at(groups[ops[y].assigned_resource_group_id as int].resources@, v, ops[y].duration as int)
}

/// Every queued operation found its group busy at each time from its
/// earliest start up to the time it is queued for.
pub open spec fn deferred_ok(ops: Seq<Operation>, batches: Seq<Batch>, groups: Seq<ResourceGroup>, loc: Map<usize, u32>) -> bool {
    forall|y: usize, v: int| #![trigger loc.contains_key(y), blocked_at(ops, groups, y as int, v)]
        loc.contains_key(y) && earliest_of(ops, batches, y as int) <= v < loc[y]
        ==> blocked_at(ops, groups, y as int, v)
}

/// Placing an operation that is neither `y` nor one of its predecessors
/// keeps what is known of `y`: its earliest start, which of its
/// predecessors started before `v`, and whether its group is busy at `v`.
proof fn lemma_waiting_frame(
    ops: Seq<Operation>,
    ops1: Seq<Operation>,
    batches: Seq<Batch>,
    groups: Seq<ResourceGroup>,
    groups1: Seq<ResourceGroup>,
    x: int,
    rid: usize,
    span: Span,
    g: int,
    y: int,
    v: int,
)
    requires
        placed_one(ops, ops1, x, rid, span),
        allocated_one(groups, groups1, g, rid as int, span),
        0 <= g < groups.len(),
        rid < groups[g].resources@.len(),
        0 <= y < ops.len(),
        ops[y].assigned_resource_group_id < groups.len(),
        y != x,
        !preds(ops, y).contains(x as usize),
        forall|q: int| 0 <= q < preds(ops, y).len() ==> #[trigger] preds(ops, y)[q] < ops.len(),
    ensures
        ops1[y] == ops[y],
        preds_started_before(ops1, y, v) == preds_started_before(ops, y, v),
        earliest_of(ops1, batches, y) == earliest_of(ops, batches, y),
        blocked_at(ops, groups, y, v) ==> blocked_at(ops1, groups1, y, v),
{
    assert(ops1[y] == ops[y]);
    assert(preds(ops1, y) == preds(ops, y));
    assert forall|q: int| 0 <= q < preds(ops, y).len() implies #[trigger] ops1[preds(ops, y)[q] as int] == ops[preds(ops, y)[q] as int] by {
        let p = preds(ops, y)[q];
        assert(p != x as usize) by {
            if p == x as usize {
                assert(preds(ops, y).contains(x as usize));
            }
        }
    }
    assert forall|k: int| 0 <= k < preds(ops, y).len() implies end_or_zero(ops[#[trigger] preds(ops, y)[k] as int])
        == end_or_zero(ops1[preds(ops, y)[k] as int]) by {}
    crate::placement::lemma_max_end_of_frame(ops, ops1, preds(ops, y));
    if blocked_at(ops, groups, y, v) {
        let gy = ops[y].assigned_resource_group_id as int;
        let d = ops[y].duration as int;
        if gy == g {
            assert forall|r: int| 0 <= r < groups1[g].resources@.len() implies
                busy_at(#[trigger] groups1[g].resources@[r].allocations@, v, d) by {
                let a = groups[g].resources@[r].allocations@;
                assert(busy_at(a, v, d));
                let j = choose|j: int| 0 <= j < a.len() && #[trigger] overlaps_at(v, d, a[j]);
                if r == rid as int {
                    assert(groups1[g].resources@[r].allocations@[j] == a[j]);
                } else {
                    assert(groups1[g].resources@[r] == groups[g].resources@[r]);
                }
            }
        } else {
            assert(groups1[gy] == groups[gy]);
        }
    }
}

/// An operation tried at `t` that could not start before `t1` on any
/// resource, and was blocked before `t`, is blocked until `t1`.
proof fn lemma_deferred_push(
    ops: Seq<Operation>,
    batches: Seq<Batch>,
    groups: Seq<ResourceGroup>,
    l: Map<usize, u32>,
    x: usize,
    t: int,
    t1: u32,
    rid: usize,
)
    requires
        deferred_ok(ops, batches, groups, l),
        x < ops.len(),
        ops[x as int].assigned_resource_group_id < groups.len(),
        forall|v: int| earliest_of(ops, batches, x as int) <= v < t ==> #[trigger] blocked_at(ops, groups, x as int, v),
        is_best_resource(groups[ops[x as int].assigned_resource_group_id as int].resources@, ops[x as int].duration as int,
            t, rid as int, t1 as int),
    ensures
        deferred_ok(ops, batches, groups, l.insert(x, t1)),
{
    let l1 = l.insert(x, t1);
    assert forall|y: usize, v: int| #![trigger l1.contains_key(y), blocked_at(ops, groups, y as int, v)]
        l1.contains_key(y) && earliest_of(ops, batches, y as int) <= v < l1[y]
        implies blocked_at(ops, groups, y as int, v) by {
        if y == x {
            if v >= t {
                crate::worker::lemma_busy_before_best(groups[ops[x as int].assigned_resource_group_id as int].resources@,
                    ops[x as int].duration as int, t, rid as int, t1 as int, v);
            }
        } else {
            assert(l.contains_key(y));
        }
    }
}

/// Where a newly ready operation is queued: its earliest start, but not
/// before the current time.
pub open spec fn start_of(ops: Seq<Operation>, batches: Seq<Batch>, x: int, t: int) -> int {
    let e = earliest_of(ops, batches, x);
    if e < t { t } else { e }
}

/// Every queued operation is ready and queued no earlier than the current
/// time or its earliest start, and no later than `bound`.
pub open spec fn queued_ok(ops: Seq<Operation>, batches: Seq<Batch>, loc: Map<usize, u32>, t: int, bound: int) -> bool {
    forall|x: usize| #[trigger] loc.contains_key(x) ==> {
        &&& x < ops.len()
        &&& ready(ops, x as int)
        &&& t <= loc[x]
        &&& earliest_of(ops, batches, x as int) <= loc[x]
        &&& loc[x] <= bound
    }
}

/// Reordering every queue keeps the queues consistent with `loc`.
proof fn lemma_pending_ok_perm(pm: Map<u32, VecDeque<usize>>, pm2: Map<u32, VecDeque<usize>>, loc: Map<usize, u32>)
    requires
        pending_ok(pm, loc),
        pm2.dom() == pm.dom(),
        forall|k: u32| #[trigger] pm.contains_key(k) ==> pm2[k]@.to_multiset() == pm[k]@.to_multiset(),
    ensures
        pending_ok(pm2, loc),
{
    assert forall|k: u32| #[trigger] pm2.contains_key(k) implies pm2[k]@.no_duplicates() by {
        crate::serial::lemma_permutation(pm[k]@, pm2[k]@);
    }
    assert forall|k: u32, i: int| pm2.contains_key(k) && 0 <= i < pm2[k]@.len()
        implies loc.contains_key(#[trigger] pm2[k]@[i]) && loc[pm2[k]@[i]] == k by {
        crate::serial::lemma_permutation(pm2[k]@, pm[k]@);
        assert(pm2[k]@.contains(pm2[k]@[i]));
        assert(pm[k]@.contains(pm2[k]@[i]));
    }
    assert forall|x: usize| #[trigger] loc.contains_key(x) implies pm2.contains_key(loc[x]) && pm2[loc[x]]@.contains(x) by {
        crate::serial::lemma_permutation(pm[loc[x]]@, pm2[loc[x]]@);
    }
}

/// Which operations are placed.
pub open spec fn placed_flags(ops: Seq<Operation>) -> Seq<bool> {
    Seq::new(ops.len(), |i: int| ops[i].scheduled_span is Some)
}

proof fn lemma_zero_sum(ops: Seq<Operation>, m: int)
    requires
        0 <= m <= ops.len(),
    ensures
        sum_dur(ops, crate::schedule::none_done(ops.len()), m) == 0,
    decreases m,
{
    if m > 0 {
        lemma_zero_sum(ops, m - 1);
    }
}

proof fn lemma_zero_count(flags: Seq<bool>, m: int)
    requires
        0 <= m <= flags.len(),
        forall|i: int| 0 <= i < m ==> !flags[i],
    ensures
        count_true(flags, m) == 0,
    decreases m,
{
    if m > 0 {
        lemma_zero_count(flags, m - 1);
    }
}

proof fn lemma_count_true_all(flags: Seq<bool>, m: int)
    requires
        0 <= m <= flags.len(),
        count_true(flags, m) == m,
    ensures
        forall|i: int| 0 <= i < m ==> flags[i],
    decreases m,
{
    if m > 0 {
        crate::sums::lemma_count_true_bounds(flags, m - 1);
        lemma_count_true_all(flags, m - 1);
    }
}

proof fn lemma_count_true_full(flags: Seq<bool>, m: int)
    requires
        0 <= m <= flags.len(),
        forall|i: int| 0 <= i < m ==> flags[i],
    ensures
        count_true(flags, m) == m,
    decreases m,
{
    if m > 0 {
        lemma_count_true_full(flags, m - 1);
    }
}

/// What every step of a parallel run keeps: the problem, correct and
/// disjoint placements, and the time bound.
pub open spec fn par_state(s: &Schedule, ops0: Seq<Operation>, batches0: Seq<Batch>, groups0: Seq<ResourceGroup>, h: int, strategy: SortStrategy) -> bool {
    let ops = s.operations@;
    let n = ops0.len();
    &&& same_problem(ops0, ops)
    &&& s.wf()
    &&& s.strategy_fits(strategy)
    &&& s.batches@ == batches0
    &&& groups_extended(groups0, s.resource_groups@)
    &&& graph_wf(ops0, batches0.len() as int, groups0.len() as int)
    &&& has_topological_order(ops0)
    &&& (s.critical_path_data matches Some(cp) && cp.path_lengths@.len() == n
        && crate::critical_path::critical_path_consistent(ops0, batches0, cp))
    &&& 0 <= h && h + total_duration(ops0) < Time::MAX
    &&& forall|i: int| 0 <= i < n ==> (#[trigger] ops0[i]).scheduled_span is None
    &&& forall|i: int| 0 <= i < n && #[trigger] placed_flags(ops)[i] ==> placement_ok(ops, batches0, s.resource_groups@, i)
    &&& forall|i: int, j: int| 0 <= i < n && 0 <= j < n && i != j && #[trigger] placed_flags(ops)[i] && #[trigger] placed_flags(ops)[j]
        ==> disjoint_on_resources(ops, i, j)
    &&& times_within(ops, batches0, s.resource_groups@, h + sum_dur(ops0, placed_flags(ops), n as int))
}

/// Every pending time lies between `lo` and `hi`.
pub open spec fn keys_within(pm: Map<u32, VecDeque<usize>>, lo: int, hi: int) -> bool {
    forall|k: u32| #[trigger] pm.contains_key(k) ==> lo <= k <= hi
}

/// Placing a ready operation at time `t`, on the resource of its group that
/// is free earliest from `t`, keeps the state of a parallel run; the
/// operations that were ready stay ready with the same earliest start, and
/// the ones that become ready are successors of the placed operation.
proof fn lemma_par_place(
    s0: Schedule,
    s1: Schedule,
    ops0: Seq<Operation>,
    batches0: Seq<Batch>,
    groups0: Seq<ResourceGroup>,
    h: int,
    strategy: SortStrategy,
    x: int,
    rid: usize,
    span: Span,
    t: int,
)
    requires
        par_state(&s0, ops0, batches0, groups0, h, strategy),
        s1.batches@ == s0.batches@,
        s1.critical_path_data == s0.critical_path_data,
        0 <= x < ops0.len(),
        ready(s0.operations@, x),
        placed_one(s0.operations@, s1.operations@, x, rid, span),
        allocated_one(s0.resource_groups@, s1.resource_groups@, s0.operations@[x].assigned_resource_group_id as int, rid as int, span),
        is_best_resource(s0.resource_groups@[s0.operations@[x].assigned_resource_group_id as int].resources@,
            s0.operations@[x].duration as int, t, rid as int, span.start as int),
        span.wf(),
        span.duration == s0.operations@[x].duration,
        span.start == t,
        earliest_of(s0.operations@, batches0, x) <= t,
        0 <= t <= h + sum_dur(ops0, placed_flags(s0.operations@), ops0.len() as int),
    ensures
        par_state(&s1, ops0, batches0, groups0, h, strategy),
        placed_flags(s1.operations@) == placed_flags(s0.operations@).update(x, true),
        sum_dur(ops0, placed_flags(s1.operations@), ops0.len() as int)
            == sum_dur(ops0, placed_flags(s0.operations@), ops0.len() as int) + s0.operations@[x].duration,
        count_true(placed_flags(s1.operations@), ops0.len() as int)
            == count_true(placed_flags(s0.operations@), ops0.len() as int) + 1,
        s1.operations@[x].scheduled_span is Some,
        forall|y: int| 0 <= y < ops0.len() && y != x && #[trigger] ready(s0.operations@, y)
            ==> ready(s1.operations@, y)
                && earliest_of(s1.operations@, batches0, y) == earliest_of(s0.operations@, batches0, y)
                && !preds(s0.operations@, y).contains(x as usize),
        forall|u: int| 0 <= u < ops0.len() && #[trigger] ready(s1.operations@, u)
            ==> (u != x && ready(s0.operations@, u)) || succs(ops0, x).contains(u as usize),
{
    let ops = s0.operations@;
    let ops1 = s1.operations@;
    let groups = s0.resource_groups@;
    let groups1 = s1.resource_groups@;
    let n = ops0.len() as int;
    let g = ops[x].assigned_resource_group_id as int;
    let d = ops[x].duration;
    let flags = placed_flags(ops);
    let spent = sum_dur(ops0, flags, n);
    let allocs = groups[g].resources@[rid as int].allocations@;
    assert(ops[x].scheduled_span is None);
    assert(!flags[x]);
    assert(placed_flags(ops1) =~= flags.update(x, true)) by {
        assert forall|i: int| 0 <= i < n implies placed_flags(ops1)[i] == flags.update(x, true)[i] by {
            if i != x {
                assert(ops1[i] == ops[i]);
            }
        }
    }
    lemma_sum_dur_set(ops0, flags, n, x);
    lemma_sum_dur_le_total(ops0, flags.update(x, true), n);
    lemma_count_true_set(flags, n, x);
    assert(ops[x].duration == ops0[x].duration);
    lemma_free_start(allocs, d as int, t);
    assert forall|q: int| 0 <= q < preds(ops, x).len() implies {
        let p = #[trigger] preds(ops, x)[q] as int;
        &&& 0 <= p < ops.len()
        &&& ops[p].scheduled_span matches Some(ps) && ps.end <= span.start
    } by {
        let p = preds(ops, x)[q] as int;
        assert(preds(ops, x)[q] < n);
        assert(ops[p].scheduled_span is Some);
        lemma_max_end_of_ge(ops, preds(ops, x), q);
    }
    assert forall|i: int| 0 <= i < ops.len() && #[trigger] flags[i] implies ops[i].scheduled_span is Some by {}
    lemma_place_step(ops, ops1, batches0, groups, groups1, flags, x, rid, span, h + spent);
    assert(same_problem(ops0, ops1)) by {
        assert forall|i: int| 0 <= i < ops0.len() implies {
            &&& (#[trigger] ops0[i]).id == ops1[i].id
            &&& ops0[i].duration == ops1[i].duration
            &&& ops0[i].assigned_batch_id == ops1[i].assigned_batch_id
            &&& ops0[i].assigned_resource_group_id == ops1[i].assigned_resource_group_id
            &&& ops0[i].predecessor_ids@ == ops1[i].predecessor_ids@
            &&& ops0[i].successor_ids@ == ops1[i].successor_ids@
        } by {
            if i != x {
                assert(ops1[i] == ops[i]);
            }
        }
    }
    crate::serial::lemma_same_problem_wf(ops0, ops1, batches0.len() as int, groups0.len() as int);
    assert(s1.strategy_fits(strategy)) by {
        if strategy is LongestSuccessorDuration || strategy is ShortestSuccessorDuration {
            assert forall|v: int| 0 <= v < ops1.len() implies #[trigger] crate::strategy::succ_dur_sum(ops1, v) <= Time::MAX by {
                assert(succs(ops1, v) == succs(ops0, v));
                assert(succs(ops, v) == succs(ops0, v));
                crate::serial::lemma_same_problem_dur_sum(ops0, ops1, succs(ops0, v));
                crate::serial::lemma_same_problem_dur_sum(ops0, ops, succs(ops0, v));
                assert(crate::strategy::succ_dur_sum(ops, v) <= Time::MAX);
            }
        }
    }
    assert(groups_extended(groups0, groups1)) by {
        assert forall|gg: int, rr: int| 0 <= gg < groups0.len() && 0 <= rr < groups0[gg].resources@.len()
            implies (#[trigger] groups0[gg].resources@[rr]).allocations@.is_prefix_of(groups1[gg].resources@[rr].allocations@) by {
            let a0 = groups0[gg].resources@[rr].allocations@;
            let a1 = groups[gg].resources@[rr].allocations@;
            let a2 = groups1[gg].resources@[rr].allocations@;
            assert(a0.is_prefix_of(a1));
            assert(a1.is_prefix_of(a2));
            assert(a2.subrange(0, a0.len() as int) =~= a0) by {
                assert forall|k: int| 0 <= k < a0.len() implies a2[k] == a0[k] by {
                    assert(a1[k] == a0[k]);
                    assert(a2[k] == a1[k]);
                }
            }
        }
    }
    assert forall|y: int| 0 <= y < ops0.len() && y != x && #[trigger] ready(ops, y) implies ready(ops1, y)
        && earliest_of(ops1, batches0, y) == earliest_of(ops, batches0, y)
        && !preds(ops, y).contains(x as usize) by {
        assert(ops1[y] == ops[y]);
        assert(preds(ops1, y) == preds(ops, y));
        assert forall|k: int| 0 <= k < preds(ops, y).len() implies end_or_zero(ops[#[trigger] preds(ops, y)[k] as int])
            == end_or_zero(ops1[preds(ops, y)[k] as int]) by {
            let p = preds(ops, y)[k] as int;
            assert(ops[p].scheduled_span is Some);
            assert(p != x);
            assert(ops1[p] == ops[p]);
        }
        crate::placement::lemma_max_end_of_frame(ops, ops1, preds(ops, y));
        assert forall|q: int| 0 <= q < preds(ops1, y).len() implies (#[trigger] ops1[preds(ops1, y)[q] as int]).scheduled_span is Some by {
            let p = preds(ops, y)[q] as int;
            assert(ops[p].scheduled_span is Some);
            if p != x {
                assert(ops1[p] == ops[p]);
            }
        }
        if preds(ops, y).contains(x as usize) {
            let k = choose|k: int| 0 <= k < preds(ops, y).len() && preds(ops, y)[k] == x as usize;
            assert(ops[preds(ops, y)[k] as int].scheduled_span is Some);
        }
    }
    assert forall|u: int| 0 <= u < ops0.len() && #[trigger] ready(ops1, u)
        implies (u != x && ready(ops, u)) || succs(ops0, x).contains(u as usize) by {
        assert(u != x);
        assert(ops1[u] == ops[u]);
        if !ready(ops, u) {
            let q = choose|q: int| 0 <= q < preds(ops, u).len()
                && (#[trigger] ops[preds(ops, u)[q] as int]).scheduled_span is None;
            let p = preds(ops, u)[q];
            assert(preds(ops1, u)[q] == p);
            assert(p < n);
            assert(ops1[p as int].scheduled_span is Some);
            assert(p == x);
            assert(preds(ops0, u).contains(x as usize));
            lemma_mirror(ops0, batches0.len() as int, groups0.len() as int, x as usize, u as usize);
        }
    }
}

/// The operations of `order` were placed one after the other, at start
/// times that never decrease: each was not placed before the run, each of
/// its predecessors comes earlier in `order` (or was placed before the
/// run), and each sits on the first resource of its group that is free for
/// its whole span from its start, given the allocations made before it; the
/// allocations of `groups` are those of `groups0` followed by the spans of
/// `order`.
pub open spec fn parallel_order(
    before: Seq<Operation>,
    after: Seq<Operation>,
    groups0: Seq<ResourceGroup>,
    groups: Seq<ResourceGroup>,
    order: Seq<usize>,
) -> bool {
    &&& order.no_duplicates()
    &&& forall|k: int| 0 <= k < order.len() ==> #[trigger] order[k] < before.len()
        && before[order[k] as int].scheduled_span is None
    &&& forall|k: int| 0 <= k < order.len()
        ==> #[trigger] best_after(after, groups0, order, k, after[order[k] as int].scheduled_span->0.start as int)
    &&& forall|k: int, q: int| 0 <= k < order.len() && 0 <= q < preds(after, order[k] as int).len()
        && (#[trigger] before[preds(after, order[k] as int)[q] as int]).scheduled_span is None
        ==> order.take(k).contains(preds(after, order[k] as int)[q])
    &&& forall|a: int, b: int| 0 <= a < b < order.len()
        ==> (#[trigger] after[order[a] as int]).scheduled_span->0.start <= (#[trigger] after[order[b] as int]).scheduled_span->0.start
    &&& allocations_follow(after, groups0, groups, order)
}

/// The run so far placed exactly the operations of `order`, none after `t`.
pub open spec fn parallel_progress(
    before: Seq<Operation>,
    after: Seq<Operation>,
    groups0: Seq<ResourceGroup>,
    groups: Seq<ResourceGroup>,
    order: Seq<usize>,
    t: int,
) -> bool {
    &&& parallel_order(before, after, groups0, groups, order)
    &&& forall|i: int| 0 <= i < before.len() ==> (#[trigger] placed_flags(after)[i] <==> order.contains(i as usize))
    &&& forall|k: int| 0 <= k < order.len() ==> (#[trigger] after[order[k] as int]).scheduled_span->0.start <= t
}

/// Operation `y` was waiting when the run placed `order[k]`: it was not
/// placed yet, all its predecessors had started earlier, and its earliest
/// start had come.
pub open spec fn waiting_at(ops: Seq<Operation>, batches: Seq<Batch>, order: Seq<usize>, k: int, y: int) -> bool {
    let t = ops[order[k] as int].scheduled_span->0.start as int;
    &&& 0 <= y < ops.len()
    &&& !order.take(k).contains(y as usize)
    &&& preds_started_before(ops, y, t)
    &&& earliest_of(ops, batches, y) <= t
}

/// Before the run placed `order[k]`, no resource of the group of `y` was
/// free at `t` for `y`'s duration.
pub open spec fn busy_at_step(ops: Seq<Operation>, groups0: Seq<ResourceGroup>, order: Seq<usize>, k: int, y: int, t: int) -> bool {
    let g = ops[y].assigned_resource_group_id as int;
    forall|r: int| 0 <= r < groups0[g].resources@.len()
        ==> busy_at(#[trigger] allocs_at(ops, groups0, order, g, r, k), t, ops[y].duration as int)
}

/// Whenever the run placed an operation, every operation that was waiting
/// with a smaller key under `strategy` found each resource of its group busy.
pub open spec fn parallel_priority(
    before: Seq<Operation>,
    after: Seq<Operation>,
    batches: Seq<Batch>,
    groups0: Seq<ResourceGroup>,
    pl: Seq<Time>,
    strategy: SortStrategy,
    order: Seq<usize>,
) -> bool {
    forall|k: int, y: int| 0 <= k < order.len() && #[trigger] waiting_at(after, batches, order, k, y)
        && !key_le(sort_key(before, batches, pl, strategy, order[k]), sort_key(before, batches, pl, strategy, y as usize))
        ==> busy_at_step(after, groups0, order, k, y, after[order[k] as int].scheduled_span->0.start as int)
}

/// When `queue[i]` is tried at `t`, with the queue sorted by key, every
/// operation that could start at `t` and has a smaller key finds its group
/// busy: it was tried earlier and put off, or queued for a later time.
proof fn lemma_waiting_blocked(
    ops0: Seq<Operation>,
    ops: Seq<Operation>,
    batches: Seq<Batch>,
    groups: Seq<ResourceGroup>,
    pl: Seq<Time>,
    strategy: SortStrategy,
    queue: Seq<usize>,
    i: int,
    l: Map<usize, u32>,
    done: Seq<usize>,
    t: int,
    group_count: int,
)
    requires
        graph_wf(ops, batches.len() as int, group_count),
        0 <= i < queue.len(),
        sorted_by_key(queue, ops0, batches, pl, strategy),
        deferred_ok(ops, batches, groups, l),
        forall|x: usize| #[trigger] l.contains_key(x) ==> t <= l[x] && l[x] != t,
        forall|kk: int| 0 <= kk < done.len() ==> #[trigger] done[kk] < ops.len()
            && (ops[done[kk] as int].scheduled_span matches Some(sp) && sp.start == t),
        forall|u: int| 0 <= u < ops.len() && #[trigger] ready(ops, u) ==> l.contains_key(u as usize)
            || queue.skip(i).contains(u as usize)
            || exists|kk: int| 0 <= kk < done.len() && succs(ops, #[trigger] done[kk] as int).contains(u as usize),
    ensures
        forall|y: int| 0 <= y < ops.len() && ops[y].scheduled_span is None && y != queue[i] as int
            && #[trigger] preds_started_before(ops, y, t) && earliest_of(ops, batches, y) <= t
            && !key_le(sort_key(ops0, batches, pl, strategy, queue[i]), sort_key(ops0, batches, pl, strategy, y as usize))
            ==> blocked_at(ops, groups, y, t),
{
    assert forall|y: int| 0 <= y < ops.len() && ops[y].scheduled_span is None && y != queue[i] as int
        && #[trigger] preds_started_before(ops, y, t) && earliest_of(ops, batches, y) <= t
        && !key_le(sort_key(ops0, batches, pl, strategy, queue[i]), sort_key(ops0, batches, pl, strategy, y as usize))
        implies blocked_at(ops, groups, y, t) by {
        assert(ready(ops, y)) by {
            assert forall|q: int| 0 <= q < preds(ops, y).len() implies (#[trigger] ops[preds(ops, y)[q] as int]).scheduled_span is Some by {}
        }
        if l.contains_key(y as usize) {
        } else if queue.skip(i).contains(y as usize) {
            let m = choose|m: int| 0 <= m < queue.skip(i).len() && queue.skip(i)[m] == y as usize;
            assert(queue[i + m] == y as usize);
            assert(m != 0);
            assert(key_le(sort_key(ops0, batches, pl, strategy, queue[i]), sort_key(ops0, batches, pl, strategy, queue[i + m])));
        } else {
            let kk = choose|kk: int| 0 <= kk < done.len() && succs(ops, #[trigger] done[kk] as int).contains(y as usize);
            let c = done[kk];
            crate::graph::lemma_mirror(ops, batches.len() as int, group_count, c, y as usize);
            let q = choose|q: int| 0 <= q < preds(ops, y).len() && preds(ops, y)[q] == c;
            assert(ops[preds(ops, y)[q] as int].scheduled_span is Some);
        }
    }
}

/// Placing `x` at `t`, when every operation waiting with a smaller key
/// finds its group busy, extends the priority record of the run.
proof fn lemma_priority_extend(
    ops0: Seq<Operation>,
    ops: Seq<Operation>,
    ops1: Seq<Operation>,
    batches: Seq<Batch>,
    groups0: Seq<ResourceGroup>,
    groups: Seq<ResourceGroup>,
    pl: Seq<Time>,
    strategy: SortStrategy,
    order: Seq<usize>,
    x: usize,
    rid: usize,
    span: Span,
    group_count: int,
)
    requires
        parallel_priority(ops0, ops, batches, groups0, pl, strategy, order),
        graph_wf(ops, batches.len() as int, group_count),
        group_count == groups0.len(),
        x < ops.len(),
        ops[x as int].scheduled_span is None,
        placed_one(ops, ops1, x as int, rid, span),
        forall|i: int| 0 <= i < ops.len() ==> (#[trigger] placed_flags(ops)[i] <==> order.contains(i as usize)),
        forall|k: int| 0 <= k < order.len() ==> #[trigger] order[k] < ops.len()
            && (ops[order[k] as int].scheduled_span matches Some(sp) && sp.start <= span.start),
        allocations_follow(ops, groups0, groups, order),
        groups_extended(groups0, groups),
        forall|y: int| 0 <= y < ops.len() && ops[y].scheduled_span is None && y != x as int
            && #[trigger] preds_started_before(ops, y, span.start as int) && earliest_of(ops, batches, y) <= span.start
            && !key_le(sort_key(ops0, batches, pl, strategy, x), sort_key(ops0, batches, pl, strategy, y as usize))
            ==> blocked_at(ops, groups, y, span.start as int),
    ensures
        parallel_priority(ops0, ops1, batches, groups0, pl, strategy, order.push(x)),
{
    let no = order.push(x);
    let n0 = order.len() as int;
    let t = span.start as int;
    assert forall|k: int, y: int| 0 <= k < no.len() && #[trigger] waiting_at(ops1, batches, no, k, y)
        && !key_le(sort_key(ops0, batches, pl, strategy, no[k]), sort_key(ops0, batches, pl, strategy, y as usize))
        implies busy_at_step(ops1, groups0, no, k, y, ops1[no[k] as int].scheduled_span->0.start as int) by {
        let tk = ops1[no[k] as int].scheduled_span->0.start as int;
        assert(no.take(k) =~= if k < n0 { order.take(k) } else { order });
        // predecessors that started before `tk` are not `x`, so they look the same before the placement
        assert forall|q: int| 0 <= q < preds(ops, y).len() implies ops1[preds(ops, y)[q] as int] == #[trigger] ops[preds(ops, y)[q] as int]
            && ((ops[preds(ops, y)[q] as int].scheduled_span matches Some(s) && s.start < tk)) by {
            assert(ops1[y].predecessor_ids@ == ops[y].predecessor_ids@);
            assert(preds(ops1, y) == preds(ops, y));
            let p = preds(ops, y)[q] as int;
            assert(preds_started_before(ops1, y, tk));
            assert(ops1[preds(ops1, y)[q] as int].scheduled_span matches Some(s) && s.start < tk);
            if k < n0 {
                assert(no[k] == order[k]);
                assert(order[k] != x) by {
                    assert(placed_flags(ops)[order[k] as int]);
                }
                assert(ops1[order[k] as int] == ops[order[k] as int]);
            }
            assert(p != x as int);
        }
        assert(preds_started_before(ops, y, tk));
        assert forall|j: int| 0 <= j < preds(ops, y).len() implies end_or_zero(ops[#[trigger] preds(ops, y)[j] as int])
            == end_or_zero(ops1[preds(ops, y)[j] as int]) by {}
        crate::placement::lemma_max_end_of_frame(ops, ops1, preds(ops, y));
        assert(earliest_of(ops1, batches, y) == earliest_of(ops, batches, y)) by {
            assert(preds(ops1, y) == preds(ops, y));
        }
        let g = ops[y].assigned_resource_group_id as int;
        assert(ops1[y].assigned_resource_group_id == ops[y].assigned_resource_group_id);
        assert(ops1[y].duration == ops[y].duration);
        assert forall|j: int| 0 <= j < n0 implies #[trigger] ops1[order[j] as int] == ops[order[j] as int] by {
            assert(placed_flags(ops)[order[j] as int]);
        }
        if k < n0 {
            assert(no[k] == order[k]);
            assert(order[k] != x) by {
                assert(placed_flags(ops)[order[k] as int]);
            }
            assert(waiting_at(ops, batches, order, k, y));
            assert forall|r: int| 0 <= r < groups0[g].resources@.len()
                implies busy_at(#[trigger] allocs_at(ops1, groups0, no, g, r, k), tk, ops1[y].duration as int) by {
                assert(busy_at(allocs_at(ops, groups0, order, g, r, k), tk, ops[y].duration as int));
                lemma_allocs_at_push(ops1, groups0, order, x, g, r, k);
                crate::placement::lemma_allocs_at_frame(ops, ops1, groups0, order, g, r, k);
            }
        } else {
            assert(no[k] == x);
            assert(tk == t);
            assert(!order.contains(y as usize));
            assert(ops[y].scheduled_span is None) by {
                assert(!placed_flags(ops)[y]);
            }
            assert(y != x as int) by {
                assert(key_le(sort_key(ops0, batches, pl, strategy, x), sort_key(ops0, batches, pl, strategy, x)));
            }
            assert(blocked_at(ops, groups, y, t));
            assert forall|r: int| 0 <= r < groups0[g].resources@.len()
                implies busy_at(#[trigger] allocs_at(ops1, groups0, no, g, r, k), tk, ops1[y].duration as int) by {
                assert(0 <= g < groups0.len());
                assert(groups[g].resources@.len() == groups0[g].resources@.len());
                assert(groups[g].resources@[r].allocations@ == allocs_at(ops, groups0, order, g, r, n0));
                lemma_allocs_at_push(ops1, groups0, order, x, g, r, k);
                crate::placement::lemma_allocs_at_frame(ops, ops1, groups0, order, g, r, k);
            }
        }
    }
}

/// Each operation of `order` starts on the first resource of its group on
/// which it can start earliest from its earliest start, given the
/// allocations made before it: no operation waits while its group has room.
pub open spec fn starts_without_delay(ops: Seq<Operation>, batches: Seq<Batch>, groups0: Seq<ResourceGroup>, order: Seq<usize>) -> bool {
    forall|k: int| 0 <= k < order.len() ==> #[trigger] best_after(ops, groups0, order, k, earliest_of(ops, batches, order[k] as int))
}

/// Placing `x` on the resource that is best from its earliest start keeps
/// every placement of the run without delay.
proof fn lemma_nondelay_step(
    before: Seq<Operation>,
    ops: Seq<Operation>,
    ops1: Seq<Operation>,
    batches: Seq<Batch>,
    groups0: Seq<ResourceGroup>,
    groups: Seq<ResourceGroup>,
    groups1: Seq<ResourceGroup>,
    order: Seq<usize>,
    x: usize,
    rid: usize,
    span: Span,
    t: int,
)
    requires
        starts_without_delay(ops, batches, groups0, order),
        parallel_progress(before, ops, groups0, groups, order, t),
        forall|i: int| 0 <= i < before.len() ==> (#[trigger] before[i]).scheduled_span is None,
        before.len() == ops.len(),
        graph_wf(ops, batches.len() as int, groups0.len() as int),
        groups_extended(groups0, groups),
        x < ops.len(),
        ready(ops, x as int),
        0 <= ops[x as int].assigned_resource_group_id < groups0.len(),
        placed_one(ops, ops1, x as int, rid, span),
        allocated_one(groups, groups1, ops[x as int].assigned_resource_group_id as int, rid as int, span),
        is_best_resource(groups[ops[x as int].assigned_resource_group_id as int].resources@,
            ops[x as int].duration as int, earliest_of(ops, batches, x as int), rid as int, span.start as int),
    ensures
        starts_without_delay(ops1, batches, groups0, order.push(x)),
{
    let no = order.push(x);
    let n0 = order.len() as int;
    assert(!placed_flags(ops)[x as int]);
    assert(!order.contains(x));
    assert forall|k: int| 0 <= k < order.len() implies #[trigger] order[k] < ops.len() by {}
    lemma_greedy_step(ops, ops1, groups0, groups, groups1, order, x, rid, span, earliest_of(ops, batches, x as int));
    // the earliest start of a placed operation reads only placed predecessors, none of them `x`
    assert forall|y: int| 0 <= y < ops.len() && (y == x as int || placed_flags(ops)[y]) implies
        #[trigger] earliest_of(ops1, batches, y) == earliest_of(ops, batches, y) by {
        assert(ops1[y].predecessor_ids@ == ops[y].predecessor_ids@);
        assert(preds(ops1, y) == preds(ops, y));
        assert forall|q: int| 0 <= q < preds(ops, y).len() implies end_or_zero(ops[#[trigger] preds(ops, y)[q] as int])
            == end_or_zero(ops1[preds(ops, y)[q] as int]) by {
            let p = preds(ops, y)[q] as int;
            assert(p < ops.len());
            if p == x as int {
                if y == x as int {
                    assert(ops[p].scheduled_span is Some);
                } else {
                    assert(order.contains(y as usize));
                    let k = choose|k: int| 0 <= k < order.len() && order[k] == y as usize;
                    assert(before[preds(ops, order[k] as int)[q] as int].scheduled_span is None);
                    assert(order.take(k).contains(preds(ops, order[k] as int)[q]));
                    let j = choose|j: int| 0 <= j < order.take(k).len() && order.take(k)[j] == preds(ops, order[k] as int)[q];
                    assert(order[j] == x);
                }
            }
        }
        crate::placement::lemma_max_end_of_frame(ops, ops1, preds(ops, y));
    }
    assert forall|k: int| 0 <= k < no.len() implies #[trigger] best_after(ops1, groups0, no, k, earliest_of(ops1, batches, no[k] as int)) by {
        if k < n0 {
            assert(no[k] == order[k]);
            assert(order.contains(order[k]));
            assert(placed_flags(ops)[order[k] as int]);
            assert(best_after(ops, groups0, order, k, earliest_of(ops, batches, order[k] as int)));
        } else {
            assert(no[k] == x);
        }
    }
}

/// Placing the ready operation `x` at time `t` on the first resource of its
/// group that is free from `t` extends the order of the run by `x`.
proof fn lemma_parallel_order_step(
    before: Seq<Operation>,
    ops: Seq<Operation>,
    ops1: Seq<Operation>,
    groups0: Seq<ResourceGroup>,
    groups: Seq<ResourceGroup>,
    groups1: Seq<ResourceGroup>,
    order: Seq<usize>,
    x: usize,
    rid: usize,
    span: Span,
    t: int,
    batch_count: int,
)
    requires
        parallel_progress(before, ops, groups0, groups, order, t),
        graph_wf(ops, batch_count, groups0.len() as int),
        ops.len() <= usize::MAX,
        before.len() == ops.len(),
        forall|i: int| 0 <= i < before.len() ==> (#[trigger] before[i]).scheduled_span is None,
        same_problem(before, ops),
        groups_extended(groups0, groups),
        0 <= ops[x as int].assigned_resource_group_id < groups0.len(),
        x < ops.len(),
        ready(ops, x as int),
        placed_one(ops, ops1, x as int, rid, span),
        allocated_one(groups, groups1, ops[x as int].assigned_resource_group_id as int, rid as int, span),
        span.start == t,
        is_best_resource(groups[ops[x as int].assigned_resource_group_id as int].resources@,
            ops[x as int].duration as int, t, rid as int, t),
    ensures
        parallel_progress(before, ops1, groups0, groups1, order.push(x), t),
{
    let n = ops.len() as int;
    let no = order.push(x);
    assert(!placed_flags(ops)[x as int]);
    assert(!order.contains(x));
    assert forall|k: int| 0 <= k < order.len() implies #[trigger] order[k] < ops.len() by {}
    lemma_greedy_step(ops, ops1, groups0, groups, groups1, order, x, rid, span, t);
    assert forall|k: int| 0 <= k < no.len() implies #[trigger] ops1[no[k] as int].scheduled_span->0.start
        == if k < order.len() { ops[order[k] as int].scheduled_span->0.start } else { span.start } by {
        if k < order.len() {
            assert(no[k] == order[k]);
            assert(order.contains(order[k]));
            assert(order[k] != x);
            assert(ops1[order[k] as int] == ops[order[k] as int]);
        }
    }
    assert forall|k: int| 0 <= k < no.len() implies #[trigger] best_after(ops1, groups0, no, k,
        ops1[no[k] as int].scheduled_span->0.start as int) by {
        if k < order.len() {
            assert(no[k] == order[k]);
            assert(best_after(ops, groups0, order, k, ops[order[k] as int].scheduled_span->0.start as int));
        }
    }
    assert forall|k: int, q: int| 0 <= k < no.len() && 0 <= q < preds(ops1, no[k] as int).len()
        && (#[trigger] before[preds(ops1, no[k] as int)[q] as int]).scheduled_span is None
        implies no.take(k).contains(preds(ops1, no[k] as int)[q]) by {
        let y = no[k] as int;
        assert(preds(ops1, y) == preds(ops, y));
        let p = preds(ops, y)[q];
        if k < order.len() {
            assert(no[k] == order[k]);
            assert(no.take(k) =~= order.take(k));
        } else {
            assert(y == x as int);
            assert(no.take(k) =~= order);
            assert(p < n);
            assert(ops[p as int].scheduled_span is Some);
            assert(placed_flags(ops)[p as int]);
        }
    }
    assert forall|a: int, b: int| 0 <= a < b < no.len() implies (#[trigger] ops1[no[a] as int]).scheduled_span->0.start
        <= (#[trigger] ops1[no[b] as int]).scheduled_span->0.start by {
        if b < order.len() {
            assert(ops[order[a] as int].scheduled_span->0.start <= ops[order[b] as int].scheduled_span->0.start);
        } else {
            assert(ops[order[a] as int].scheduled_span->0.start <= t);
        }
    }
    assert(no.no_duplicates()) by {
        assert forall|a: int, b: int| 0 <= a < no.len() && 0 <= b < no.len() && a != b implies no[a] != no[b] by {
            if a == order.len() {
                assert(order.contains(no[b]));
            } else if b == order.len() {
                assert(order.contains(no[a]));
            } else {
                assert(no[a] == order[a] && no[b] == order[b]);
            }
        }
    }
    assert forall|i: int| 0 <= i < before.len() implies (#[trigger] placed_flags(ops1)[i] <==> no.contains(i as usize)) by {
        if i == x as int {
            assert(no[order.len() as int] == x);
        } else {
            assert(ops1[i] == ops[i]);
            assert(placed_flags(ops)[i] <==> order.contains(i as usize));
            assert(placed_flags(ops1)[i] == placed_flags(ops)[i]);
            if no.contains(i as usize) {
                let j = choose|j: int| 0 <= j < no.len() && no[j] == i as usize;
                if j < order.len() {
                    assert(order[j] == i as usize);
                }
            }
            if order.contains(i as usize) {
                let j = choose|j: int| 0 <= j < order.len() && order[j] == i as usize;
                assert(no[j] == i as usize);
            }
        }
    }
}

impl Schedule {
    /// Appends `id` to the queue of `time`, creating the queue when needed.
    fn push_pending(&mut self, time: Time, id: OperationId)
        ensures
            same_but_pending(old(self), final(self)),
            final(self).pending_operation_ids@.dom() == old(self).pending_operation_ids@.dom().insert(time),
            final(self).pending_operation_ids@[time]@ == if old(self).pending_operation_ids@.contains_key(time) {
                old(self).pending_operation_ids@[time]@.push(id)
            } else {
                seq![id]
            },
            forall|k: u32| k != time && #[trigger] old(self).pending_operation_ids@.contains_key(k)
                ==> final(self).pending_operation_ids@[k] == old(self).pending_operation_ids@[k],
    {
        let mut queue = match self.pending_operation_ids.remove(&time) {
            Some(q) => q,
            None => VecDeque::new(),
        };
        queue.push_back(id);
        self.pending_operation_ids.insert(time, queue);
        proof {
            assert(final(self).pending_operation_ids@.dom() =~= old(self).pending_operation_ids@.dom().insert(time));
        }
    }

    /// The times that have a pending queue.
    fn pending_times(&self) -> (r: Vec<Time>)
        ensures
            r@.to_set() == self.pending_operation_ids@.dom(),
            r@.no_duplicates(),
    {
        let m = &self.pending_operation_ids;
        let mut r: Vec<Time> = Vec::new();
        let ghost ks = vstd::std_specs::btree::spec_keys_iter(m).remaining();
        for k in it: m.keys()
            invariant
                r@ == it.seq().take(it.index() as int).map_values(|k: &u32| *k),
                it.seq() == ks,
                ks == vstd::std_specs::btree::spec_keys_iter(m).remaining(),
        {
            r.push(*k);
        }
        proof {
            assert(r@ =~= ks.unref());
        }
        r
    }

    /// Reorders the queue of `time` by the strategy.
    fn sort_pending_queue(&mut self, time: Time, strategy: SortStrategy)
        requires
            old(self).pending_operation_ids@.contains_key(time),
            queues_sortable(old(self), strategy),
        ensures
            same_but_pending(old(self), final(self)),
            final(self).pending_operation_ids@.dom() == old(self).pending_operation_ids@.dom(),
            final(self).pending_operation_ids@[time]@.to_multiset() == old(self).pending_operation_ids@[time]@.to_multiset(),
            !(strategy is Random) ==> sorted_by_key(final(self).pending_operation_ids@[time]@, final(self).operations@,
                final(self).batches@, path_lengths_of(final(self).critical_path_data), strategy),
            !(strategy is Random) ==> final(self).pending_operation_ids@[time]@ == stable_sort_by_key(
                old(self).pending_operation_ids@[time]@, old(self).operations@, old(self).batches@,
                path_lengths_of(old(self).critical_path_data), strategy),
            forall|k: u32| k != time && #[trigger] old(self).pending_operation_ids@.contains_key(k)
                ==> final(self).pending_operation_ids@[k] == old(self).pending_operation_ids@[k],
    {
        let mut queue = match self.pending_operation_ids.remove(&time) {
            Some(q) => q,
            None => VecDeque::new(),
        };
        let ghost q0 = queue@;
        sort_queue_by_strategy(&self.operations, &self.batches, &self.critical_path_data, &mut queue, strategy);
        proof {
            crate::strategy::lemma_stable_sort(q0, self.operations@, self.batches@, path_lengths_of(self.critical_path_data), strategy);
        }
        self.pending_operation_ids.insert(time, queue);
        proof {
            assert(final(self).pending_operation_ids@.dom() =~= old(self).pending_operation_ids@.dom());
        }
    }

    /// Reorders every pending queue by the strategy.
    fn sort_all_pending(&mut self, strategy: SortStrategy)
        requires
            queues_sortable(old(self), strategy),
        ensures
            same_but_pending(old(self), final(self)),
            final(self).pending_operation_ids@.dom() == old(self).pending_operation_ids@.dom(),
            forall|k: u32| #[trigger] old(self).pending_operation_ids@.contains_key(k)
                ==> final(self).pending_operation_ids@[k]@.to_multiset() == old(self).pending_operation_ids@[k]@.to_multiset(),
            !(strategy is Random) ==> queues_sorted(final(self).pending_operation_ids@, final(self).operations@,
                final(self).batches@, path_lengths_of(final(self).critical_path_data), strategy),
            !(strategy is Random) ==> forall|k: u32| #[trigger] old(self).pending_operation_ids@.contains_key(k)
                ==> final(self).pending_operation_ids@[k]@ == stable_sort_by_key(old(self).pending_operation_ids@[k]@,
                    old(self).operations@, old(self).batches@, path_lengths_of(old(self).critical_path_data), strategy),
    {
        let times = self.pending_times();
        let ghost pm0 = self.pending_operation_ids@;
        let n = times.len();
        let mut i: usize = 0;
        while i < n
            invariant
                same_but_pending(old(self), self),
                pm0 == old(self).pending_operation_ids@,
                n == times@.len(),
                times@.to_set() == pm0.dom(),
                times@.no_duplicates(),
                0 <= i <= n,
                self.pending_operation_ids@.dom() == pm0.dom(),
                forall|k: u32| #[trigger] pm0.contains_key(k) ==> self.pending_operation_ids@[k]@.to_multiset() == pm0[k]@.to_multiset(),
                forall|k: u32| #[trigger] pm0.contains_key(k) && !times@.take(i as int).contains(k)
                    ==> self.pending_operation_ids@[k] == pm0[k],
                !(strategy is Random) ==> forall|k: u32| #[trigger] pm0.contains_key(k) && times@.take(i as int).contains(k)
                    ==> sorted_by_key(self.pending_operation_ids@[k]@, self.operations@, self.batches@,
                        path_lengths_of(self.critical_path_data), strategy)
                    && self.pending_operation_ids@[k]@ == stable_sort_by_key(pm0[k]@, self.operations@, self.batches@,
                        path_lengths_of(self.critical_path_data), strategy),
                queues_sortable(old(self), strategy),
            decreases n - i,
        {
            let t = times[i];
            proof {
                assert(times@.contains(t));
                assert(times@.to_set().contains(t));
                assert(!times@.take(i as int).contains(t)) by {
                    if times@.take(i as int).contains(t) {
                        let k = choose|k: int| 0 <= k < i && times@.take(i as int)[k] == t;
                        assert(times@[k] == times@[i as int]);
                    }
                }
                assert(self.pending_operation_ids@[t] == pm0[t]);
                assert(queues_sortable(self, strategy)) by {
                    assert forall|k: u32| #[trigger] self.pending_operation_ids@.contains_key(k) implies
                        keys_computable(self.operations@, self.batches@, path_lengths_of(self.critical_path_data), strategy, self.pending_operation_ids@[k]@) by {
                        let a = self.pending_operation_ids@[k]@;
                        let b = pm0[k]@;
                        assert(keys_computable(self.operations@, self.batches@, path_lengths_of(self.critical_path_data), strategy, b));
                        crate::serial::lemma_permutation(b, a);
                        crate::strategy::lemma_keys_computable_subset(self.operations@, self.batches@,
                            path_lengths_of(self.critical_path_data), strategy, a, b);
                    }
                }
            }
            let ghost pm_i = self.pending_operation_ids@;
            self.sort_pending_queue(t, strategy);
            proof {
                if !(strategy is Random) {
                    assert forall|k: u32| #[trigger] pm0.contains_key(k) && times@.take(i + 1).contains(k)
                        implies sorted_by_key(self.pending_operation_ids@[k]@, self.operations@, self.batches@,
                            path_lengths_of(self.critical_path_data), strategy)
                        && self.pending_operation_ids@[k]@ == stable_sort_by_key(pm0[k]@, self.operations@, self.batches@,
                            path_lengths_of(self.critical_path_data), strategy) by {
                        if k != t {
                            let j = choose|j: int| 0 <= j < i + 1 && #[trigger] times@.take(i + 1)[j] == k;
                            assert(j != i);
                            assert(times@.take(i as int)[j] == k);
                            assert(pm_i[k] == self.pending_operation_ids@[k]);
                        }
                    }
                }
                assert forall|k: u32| #[trigger] pm0.contains_key(k) && !times@.take(i + 1).contains(k)
                    implies self.pending_operation_ids@[k] == pm0[k] by {
                    if k == t {
                        assert(times@.take(i + 1)[i as int] == t);
                    } else {
                        assert(!times@.take(i as int).contains(k)) by {
                            if times@.take(i as int).contains(k) {
                                let j = choose|j: int| 0 <= j < i && times@.take(i as int)[j] == k;
                                assert(times@.take(i + 1)[j] == k);
                            }
                        }
                    }
                }
            }
            i = i + 1;
        }
        proof {
            if !(strategy is Random) {
                assert forall|k: u32| #[trigger] self.pending_operation_ids@.contains_key(k) implies
                    sorted_by_key(self.pending_operation_ids@[k]@, self.operations@, self.batches@,
                        path_lengths_of(self.critical_path_data), strategy)
                    && self.pending_operation_ids@[k]@ == stable_sort_by_key(pm0[k]@, self.operations@, self.batches@,
                        path_lengths_of(self.critical_path_data), strategy) by {
                    assert(pm0.contains_key(k));
                    assert(times@.to_set().contains(k));
                    assert(times@.take(n as int) =~= times@);
                }
            }
        }
    }

    /// Queues every operation without predecessors at its batch start time,
    /// then orders every queue by the strategy.
    fn init_pending_opeations(&mut self, strategy: SortStrategy)
        requires
            old(self).wf(),
            old(self).pending_operation_ids@.dom().len() == 0,
            old(self).pending_operation_ids@.dom().finite(),
            old(self).strategy_fits(strategy),
            strategy is LongestCriticalPathFirst ==> (old(self).critical_path_data matches Some(cp)
                && cp.path_lengths@.len() == old(self).operations@.len()),
        ensures
            same_but_pending(old(self), final(self)),
            forall|k: u32| #[trigger] final(self).pending_operation_ids@.contains_key(k) ==> {
                let q = final(self).pending_operation_ids@[k]@;
                &&& q.len() > 0
                &&& q.no_duplicates()
                &&& forall|j: int| 0 <= j < q.len() ==> #[trigger] q[j] < final(self).operations@.len()
                    && preds(final(self).operations@, q[j] as int).len() == 0
                    && root_time(final(self).operations@, final(self).batches@, q[j] as int) == k
            },
            forall|x: usize| x < final(self).operations@.len() && #[trigger] preds(final(self).operations@, x as int).len() == 0
                ==> final(self).pending_operation_ids@.contains_key(root_time(final(self).operations@, final(self).batches@, x as int) as u32)
                    && final(self).pending_operation_ids@[root_time(final(self).operations@, final(self).batches@, x as int) as u32]@.contains(x),
            !(strategy is Random) ==> queues_sorted(final(self).pending_operation_ids@, final(self).operations@,
                final(self).batches@, path_lengths_of(final(self).critical_path_data), strategy),
            !(strategy is Random) ==> forall|k: u32| #[trigger] final(self).pending_operation_ids@.contains_key(k)
                ==> final(self).pending_operation_ids@[k]@ == stable_sort_by_key(
                    roots_at(final(self).operations@, final(self).batches@, k as int, final(self).operations@.len() as int),
                    final(self).operations@, final(self).batches@, path_lengths_of(final(self).critical_path_data), strategy),
    {
        let ghost ops = self.operations@;
        let ghost bs = self.batches@;
        let n = self.operations.len();
        proof {
            assert(self.pending_operation_ids@.dom() =~= Set::<u32>::empty());
        }
        let mut i: usize = 0;
        while i < n
            invariant
                same_but_pending(old(self), self),
                ops == self.operations@,
                bs == self.batches@,
                n == ops.len(),
                self.wf(),
                0 <= i <= n,
                forall|k: u32| #[trigger] self.pending_operation_ids@.contains_key(k) ==> {
                    let q = self.pending_operation_ids@[k]@;
                    &&& q.len() > 0
                    &&& q.no_duplicates()
                    &&& forall|j: int| 0 <= j < q.len() ==> #[trigger] q[j] < i
                        && preds(ops, q[j] as int).len() == 0 && root_time(ops, bs, q[j] as int) == k
                },
                forall|x: usize| x < i && #[trigger] preds(ops, x as int).len() == 0
                    ==> self.pending_operation_ids@.contains_key(root_time(ops, bs, x as int) as u32)
                        && self.pending_operation_ids@[root_time(ops, bs, x as int) as u32]@.contains(x),
                forall|k: u32| #[trigger] self.pending_operation_ids@.contains_key(k)
                    ==> self.pending_operation_ids@[k]@ == roots_at(ops, bs, k as int, i as int),
            decreases n - i,
        {
            if self.operations[i].predecessor_ids.len() == 0 {
                let start_time: Time = self.batches[self.operations[i].assigned_batch_id].start_time;
                let ghost pm = self.pending_operation_ids@;
                proof {
                    assert(ops[i as int].id == i);
                }
                self.push_pending(start_time, self.operations[i].id);
                proof {
                    let pm1 = self.pending_operation_ids@;
                    assert forall|k: u32| #[trigger] pm1.contains_key(k) implies {
                        let q = pm1[k]@;
                        &&& q.len() > 0
                        &&& q.no_duplicates()
                        &&& forall|j: int| 0 <= j < q.len() ==> #[trigger] q[j] < i + 1
                            && preds(ops, q[j] as int).len() == 0 && root_time(ops, bs, q[j] as int) == k
                    } by {
                        if k == start_time {
                            if pm.contains_key(k) {
                                let q0 = pm[k]@;
                                assert(pm1[k]@ == q0.push(i));
                                assert forall|a: int, b: int| 0 <= a < pm1[k]@.len() && 0 <= b < pm1[k]@.len() && a != b
                                    implies pm1[k]@[a] != pm1[k]@[b] by {
                                    if a < q0.len() && b < q0.len() {
                                    } else if a == q0.len() {
                                        assert(q0[b] < i);
                                    } else {
                                        assert(q0[a] < i);
                                    }
                                }
                                assert forall|j: int| 0 <= j < pm1[k]@.len() implies #[trigger] pm1[k]@[j] < i + 1
                                    && preds(ops, pm1[k]@[j] as int).len() == 0 && root_time(ops, bs, pm1[k]@[j] as int) == k by {
                                    if j < q0.len() {
                                        assert(pm1[k]@[j] == q0[j]);
                                    }
                                }
                            }
                        }
                    }
                    assert forall|k: u32| #[trigger] pm1.contains_key(k)
                        implies pm1[k]@ == roots_at(ops, bs, k as int, i + 1) by {
                        if k == start_time {
                            if pm.contains_key(k) {
                                assert(pm1[k]@ == pm[k]@.push(i));
                            } else {
                                assert(roots_at(ops, bs, k as int, i as int).len() == 0) by {
                                    lemma_roots_at_nonempty(ops, bs, k as int, i as int);
                                    let r = roots_at(ops, bs, k as int, i as int);
                                    if r.len() > 0 {
                                        let x = r[0];
                                        assert(preds(ops, x as int).len() == 0);
                                        assert(pm.contains_key(root_time(ops, bs, x as int) as u32));
                                    }
                                }
                            }
                        } else {
                            assert(pm.contains_key(k));
                        }
                    }
                    assert forall|x: usize| x < i + 1 && #[trigger] preds(ops, x as int).len() == 0
                        implies pm1.contains_key(root_time(ops, bs, x as int) as u32)
                            && pm1[root_time(ops, bs, x as int) as u32]@.contains(x) by {
                        let k = root_time(ops, bs, x as int) as u32;
                        if x == i {
                            assert(k == start_time);
                            assert(pm1[k]@[pm1[k]@.len() - 1] == i);
                        } else if k == start_time {
                            let q0 = pm[k]@;
                            let j = choose|j: int| 0 <= j < q0.len() && q0[j] == x;
                            assert(pm1[k]@[j] == x);
                        }
                    }
                }
            }
            i = i + 1;
        }
        proof {
            assert(queues_sortable(self, strategy)) by {
                assert forall|k: u32| #[trigger] self.pending_operation_ids@.contains_key(k) implies
                    keys_computable(self.operations@, self.batches@, path_lengths_of(self.critical_path_data), strategy,
                        self.pending_operation_ids@[k]@) by {
                    let q = self.pending_operation_ids@[k]@;
                    assert forall|j: int| 0 <= j < q.len() implies #[trigger] q[j] < n by {}
                }
            }
        }
        let ghost pm2 = self.pending_operation_ids@;
        self.sort_all_pending(strategy);
        proof {
            assert forall|k: u32| #[trigger] pm2.contains_key(k) implies pm2[k]@ == roots_at(ops, bs, k as int, n as int) by {}
        }
        proof {
            let pm3 = self.pending_operation_ids@;
            assert forall|k: u32| #[trigger] pm3.contains_key(k) implies {
                let q = pm3[k]@;
                &&& q.len() > 0
                &&& q.no_duplicates()
                &&& forall|j: int| 0 <= j < q.len() ==> #[trigger] q[j] < ops.len()
                    && preds(ops, q[j] as int).len() == 0 && root_time(ops, bs, q[j] as int) == k
            } by {
                crate::serial::lemma_permutation(pm2[k]@, pm3[k]@);
                pm2[k]@.to_multiset_ensures();
                pm3[k]@.to_multiset_ensures();
                let q = pm3[k]@;
                assert forall|j: int| 0 <= j < q.len() implies #[trigger] q[j] < ops.len()
                    && preds(ops, q[j] as int).len() == 0 && root_time(ops, bs, q[j] as int) == k by {
                    assert(q.contains(q[j]));
                    assert(pm2[k]@.contains(q[j]));
                }
            }
            assert forall|x: usize| x < ops.len() && #[trigger] preds(ops, x as int).len() == 0
                implies pm3.contains_key(root_time(ops, bs, x as int) as u32)
                    && pm3[root_time(ops, bs, x as int) as u32]@.contains(x) by {
                crate::serial::lemma_permutation(pm2[root_time(ops, bs, x as int) as u32]@, pm3[root_time(ops, bs, x as int) as u32]@);
            }
        }
    }

    /// The earliest time after `current_time` at which a resource group
    /// frees up or a queue is pending.
    fn find_next_event_time(&self, current_time: Time) -> (r: Option<Time>)
        requires
            current_time < Time::MAX,
        ensures
            match r {
                Some(v) => {
                    &&& v > current_time
                    &&& (exists|g: int| 0 <= g < self.resource_groups@.len() && #[trigger] self.resource_groups@[g].next_available_time == v)
                        || self.pending_operation_ids@.contains_key(v)
                    &&& forall|g: int| 0 <= g < self.resource_groups@.len() && #[trigger] self.resource_groups@[g].next_available_time > current_time
                        ==> v <= self.resource_groups@[g].next_available_time
                    &&& forall|k: u32| #[trigger] self.pending_operation_ids@.contains_key(k) && k > current_time ==> v <= k
                },
                None => {
                    &&& forall|g: int| 0 <= g < self.resource_groups@.len()
                        ==> #[trigger] self.resource_groups@[g].next_available_time <= current_time
                    &&& forall|k: u32| #[trigger] self.pending_operation_ids@.contains_key(k) ==> k <= current_time
                },
            },
    {
        let groups = &self.resource_groups;
        let ng = groups.len();
        let mut next_event_time: Option<Time> = None;
        let mut g: usize = 0;
        while g < ng
            invariant
                ng == groups@.len(),
                groups == &self.resource_groups,
                0 <= g <= ng,
                match next_event_time {
                    Some(v) => {
                        &&& v > current_time
                        &&& exists|gg: int| 0 <= gg < g && #[trigger] groups@[gg].next_available_time == v
                        &&& forall|gg: int| 0 <= gg < g && #[trigger] groups@[gg].next_available_time > current_time
                            ==> v <= groups@[gg].next_available_time
                    },
                    None => forall|gg: int| 0 <= gg < g ==> #[trigger] groups@[gg].next_available_time <= current_time,
                },
            decreases ng - g,
        {
            let time = groups[g].next_available_time;
            if time > current_time {
                match next_event_time {
                    None => { next_event_time = Some(time); },
                    Some(v) => {
                        if time < v {
                            next_event_time = Some(time);
                        }
                    },
                }
            }
            g = g + 1;
        }
        let times = self.pending_times();
        let nt = times.len();
        let mut first_pending: Option<Time> = None;
        let mut i: usize = 0;
        while i < nt
            invariant
                nt == times@.len(),
                0 <= i <= nt,
                match first_pending {
                    Some(v) => {
                        &&& v > current_time
                        &&& times@.contains(v)
                        &&& forall|k: int| 0 <= k < i && #[trigger] times@[k] > current_time ==> v <= times@[k]
                    },
                    None => forall|k: int| 0 <= k < i ==> #[trigger] times@[k] <= current_time,
                },
            decreases nt - i,
        {
            let time = times[i];
            if time > current_time {
                match first_pending {
                    None => { first_pending = Some(time); },
                    Some(v) => {
                        if time < v {
                            first_pending = Some(time);
                        }
                    },
                }
            }
            i = i + 1;
        }
        proof {
            assert forall|k: u32| #[trigger] self.pending_operation_ids@.contains_key(k) implies times@.contains(k) by {
                assert(times@.to_set().contains(k));
            }
            if let Some(v) = first_pending {
                assert(times@.to_set().contains(v));
            }
        }
        if let Some(time) = first_pending {
            match next_event_time {
                None => { next_event_time = Some(time); },
                Some(existing) => {
                    if time < existing {
                        next_event_time = Some(time);
                    }
                },
            }
        }
        next_event_time
    }

    /// Queues every successor of a just-placed operation that has become
    /// ready, at the later of its earliest start and `current_time`, and
    /// sorts that queue again: it then holds the stable sort of its old
    /// contents followed by what was queued.
    fn add_successors_to_pending_operations(
        &mut self,
        current_time: Time,
        current_completed_operation_ids: Vec<OperationId>,
        strategy: SortStrategy,
        Ghost(loc): Ghost<Map<usize, u32>>,
        Ghost(bound): Ghost<int>,
    ) -> (new_loc: Ghost<Map<usize, u32>>)
        requires
            old(self).wf(),
            old(self).strategy_fits(strategy),
            strategy is LongestCriticalPathFirst ==> (old(self).critical_path_data matches Some(cp)
                && cp.path_lengths@.len() == old(self).operations@.len()),
            queued_in_range(old(self).pending_operation_ids@, old(self).operations@.len() as int),
            forall|k: int| 0 <= k < current_completed_operation_ids@.len()
                ==> #[trigger] current_completed_operation_ids@[k] < old(self).operations@.len(),
        ensures
            same_but_pending(old(self), final(self)),
            queued_in_range(final(self).pending_operation_ids@, final(self).operations@.len() as int),
            current_completed_operation_ids@.len() == 0 ==> final(self).pending_operation_ids@ == old(self).pending_operation_ids@,
            !(strategy is Random) ==> changed_sorted(old(self).pending_operation_ids@, final(self).pending_operation_ids@,
                final(self).operations@, final(self).batches@, path_lengths_of(final(self).critical_path_data), strategy),
            exists|added: Map<u32, Seq<usize>>| #![trigger added.dom()]
                final(self).pending_operation_ids@.dom() == old(self).pending_operation_ids@.dom().union(added.dom())
                && (!(strategy is Random) ==> resorted_with(old(self).pending_operation_ids@, final(self).pending_operation_ids@,
                    added, final(self).operations@, final(self).batches@, path_lengths_of(final(self).critical_path_data), strategy))
                && (queue_bookkeeping(old(self), loc, current_time as int, bound, current_completed_operation_ids@)
                    ==> newly_queued(added, loc, new_loc@)),
            queue_bookkeeping(old(self), loc, current_time as int, bound, current_completed_operation_ids@) ==> {
                &&& pending_ok(final(self).pending_operation_ids@, new_loc@)
                &&& queued_ok(final(self).operations@, final(self).batches@, new_loc@, current_time as int, bound)
                &&& forall|u: int| 0 <= u < final(self).operations@.len() && #[trigger] ready(final(self).operations@, u)
                    ==> new_loc@.contains_key(u as usize)
                &&& forall|k: u32| #[trigger] final(self).pending_operation_ids@.contains_key(k)
                    ==> old(self).pending_operation_ids@.contains_key(k) || (current_time <= k <= bound)
                &&& forall|x: usize| #[trigger] new_loc@.contains_key(x) ==> (loc.contains_key(x) && new_loc@[x] == loc[x])
                    || (new_loc@[x] == start_of(old(self).operations@, old(self).batches@, x as int, current_time as int)
                        && exists|kk: int| 0 <= kk < current_completed_operation_ids@.len()
                            && preds(old(self).operations@, x as int).contains(#[trigger] current_completed_operation_ids@[kk]))
                &&& forall|x: usize| #[trigger] loc.contains_key(x) ==> new_loc@.contains_key(x) && new_loc@[x] == loc[x]
            },
    {
        let ghost ops = self.operations@;
        let ghost bs = self.batches@;
        let ghost completed = current_completed_operation_ids@;
        let ghost hb = queue_bookkeeping(old(self), loc, current_time as int, bound, completed);
        let ghost mut l = loc;
        let ghost mut added: Map<u32, Seq<usize>> = Map::empty();
        let n = self.operations.len();
        let nc = current_completed_operation_ids.len();
        proof {
            assert(self.pending_operation_ids@.dom() =~= old(self).pending_operation_ids@.dom().union(added.dom()));
            if !(strategy is Random) {
                assert(resorted_with(old(self).pending_operation_ids@, self.pending_operation_ids@, added, ops, bs,
                    path_lengths_of(self.critical_path_data), strategy));
            }
        }
        let mut k: usize = 0;
        while k < nc
            invariant
                same_but_pending(old(self), self),
                ops == self.operations@,
                bs == self.batches@,
                n == ops.len(),
                completed == current_completed_operation_ids@,
                nc == completed.len(),
                self.wf(),
                self.strategy_fits(strategy),
                strategy is LongestCriticalPathFirst ==> (self.critical_path_data matches Some(cp) && cp.path_lengths@.len() == n),
                forall|kk: int| 0 <= kk < nc ==> #[trigger] completed[kk] < n,
                0 <= k <= nc,
                queued_in_range(self.pending_operation_ids@, n as int),
                hb == queue_bookkeeping(old(self), loc, current_time as int, bound, completed),
                hb ==> {
                    &&& pending_ok(self.pending_operation_ids@, l)
                    &&& queued_ok(ops, bs, l, current_time as int, bound)
                    &&& forall|x: usize| #[trigger] l.contains_key(x) ==> (loc.contains_key(x) && l[x] == loc[x]
                        && forall|kk: int| 0 <= kk < nc ==> !preds(ops, x as int).contains(#[trigger] completed[kk]))
                        || (l[x] == start_of(ops, bs, x as int, current_time as int)
                            && exists|kk: int| 0 <= kk < nc && preds(ops, x as int).contains(#[trigger] completed[kk]))
                    &&& forall|u: int| 0 <= u < n && #[trigger] ready(ops, u) ==> l.contains_key(u as usize)
                        || exists|kk: int| k <= kk < nc && succs(ops, #[trigger] completed[kk] as int).contains(u as usize)
                    &&& forall|kk: u32| #[trigger] self.pending_operation_ids@.contains_key(kk)
                        ==> old(self).pending_operation_ids@.contains_key(kk) || (current_time <= kk <= bound)
                    &&& forall|x: usize| #[trigger] loc.contains_key(x) ==> l.contains_key(x) && l[x] == loc[x]
                    &&& newly_queued(added, loc, l)
                },
                nc == 0 ==> self.pending_operation_ids@ == old(self).pending_operation_ids@,
                !(strategy is Random) ==> changed_sorted(old(self).pending_operation_ids@, self.pending_operation_ids@,
                    ops, bs, path_lengths_of(self.critical_path_data), strategy),
                self.pending_operation_ids@.dom() == old(self).pending_operation_ids@.dom().union(added.dom()),
                !(strategy is Random) ==> resorted_with(old(self).pending_operation_ids@, self.pending_operation_ids@, added,
                    ops, bs, path_lengths_of(self.critical_path_data), strategy),
            decreases nc - k,
        {
            let c = current_completed_operation_ids[k];
            let ns = self.operations[c].successor_ids.len();
            proof {
                assert(succs(ops, c as int).skip(0) =~= succs(ops, c as int));
                if hb {
                assert forall|u: int| 0 <= u < n && #[trigger] ready(ops, u) implies l.contains_key(u as usize)
                    || succs(ops, c as int).skip(0).contains(u as usize)
                    || exists|kk: int| k < kk < nc && succs(ops, #[trigger] completed[kk] as int).contains(u as usize) by {
                    if !l.contains_key(u as usize) {
                        let kk = choose|kk: int| k <= kk < nc && succs(ops, #[trigger] completed[kk] as int).contains(u as usize);
                        if kk == k {
                            assert(succs(ops, c as int).skip(0).contains(u as usize));
                        }
                    }
                }
                }
            }
            let mut j: usize = 0;
            while j < ns
                invariant
                    same_but_pending(old(self), self),
                    ops == self.operations@,
                    bs == self.batches@,
                    n == ops.len(),
                    completed == current_completed_operation_ids@,
                    nc == completed.len(),
                    self.wf(),
                    self.strategy_fits(strategy),
                    strategy is LongestCriticalPathFirst ==> (self.critical_path_data matches Some(cp) && cp.path_lengths@.len() == n),
                    forall|kk: int| 0 <= kk < nc ==> #[trigger] completed[kk] < n,
                    0 <= k < nc,
                    c == completed[k as int],
                    ns == succs(ops, c as int).len(),
                    0 <= j <= ns,
                    queued_in_range(self.pending_operation_ids@, n as int),
                    hb == queue_bookkeeping(old(self), loc, current_time as int, bound, completed),
                    hb ==> {
                        &&& pending_ok(self.pending_operation_ids@, l)
                        &&& queued_ok(ops, bs, l, current_time as int, bound)
                        &&& forall|x: usize| #[trigger] l.contains_key(x) ==> (loc.contains_key(x) && l[x] == loc[x]
                            && forall|kk: int| 0 <= kk < nc ==> !preds(ops, x as int).contains(#[trigger] completed[kk]))
                            || (l[x] == start_of(ops, bs, x as int, current_time as int)
                            && exists|kk: int| 0 <= kk < nc && preds(ops, x as int).contains(#[trigger] completed[kk]))
                        &&& forall|u: int| 0 <= u < n && #[trigger] ready(ops, u) ==> l.contains_key(u as usize)
                            || succs(ops, c as int).skip(j as int).contains(u as usize)
                            || exists|kk: int| k < kk < nc && succs(ops, #[trigger] completed[kk] as int).contains(u as usize)
                        &&& forall|kk: u32| #[trigger] self.pending_operation_ids@.contains_key(kk)
                            ==> old(self).pending_operation_ids@.contains_key(kk) || (current_time <= kk <= bound)
                        &&& forall|x: usize| #[trigger] loc.contains_key(x) ==> l.contains_key(x) && l[x] == loc[x]
                        &&& newly_queued(added, loc, l)
                    },
                    !(strategy is Random) ==> changed_sorted(old(self).pending_operation_ids@, self.pending_operation_ids@,
                        ops, bs, path_lengths_of(self.critical_path_data), strategy),
                    self.pending_operation_ids@.dom() == old(self).pending_operation_ids@.dom().union(added.dom()),
                    !(strategy is Random) ==> resorted_with(old(self).pending_operation_ids@, self.pending_operation_ids@, added,
                        ops, bs, path_lengths_of(self.critical_path_data), strategy),
                decreases ns - j,
            {
                let successor_id = self.operations[c].successor_ids[j];
                proof {
                    assert(succs(ops, c as int)[j as int] == successor_id);
                    assert(successor_id < n);
                }
                if !self.operations[successor_id].is_scheduled() && self.all_predecessors_scheduled(successor_id) {
                    let max_predecessor_end = self.max_predecessor_end(successor_id);
                    let batch_start = self.batches[self.operations[successor_id].assigned_batch_id].start_time;
                    let mut start_time: Time = if batch_start >= max_predecessor_end { batch_start } else { max_predecessor_end };
                    if start_time < current_time {
                        start_time = current_time;
                    }
                    proof {
                        if hb {
                        assert forall|q: int| 0 <= q < preds(ops, successor_id as int).len()
                            implies end_or_zero(ops[#[trigger] preds(ops, successor_id as int)[q] as int]) <= bound by {
                            assert(preds(ops, successor_id as int)[q] < n);
                        }
                        lemma_max_end_of_bound(ops, preds(ops, successor_id as int), bound);
                        assert(start_time == start_of(ops, bs, successor_id as int, current_time as int));
                        assert(ready(ops, successor_id as int));
                        // a successor of a just-placed operation can only be queued at its start time
                        if l.contains_key(successor_id) {
                            assert(preds(ops, successor_id as int).contains(c)) by {
                                lemma_mirror(ops, bs.len() as int, self.resource_groups@.len() as int, c, successor_id);
                                assert(succs(ops, c as int).contains(successor_id));
                            }
                            assert(l[successor_id] == start_time);
                        }
                        }
                    }
                    let contained = match self.pending_operation_ids.get(&start_time) {
                        Some(queue) => crate::serial::queue_contains(queue, successor_id),
                        None => false,
                    };
                    if !contained {
                        let ghost pm = self.pending_operation_ids@;
                        let ghost l0 = l;
                        proof {
                            if hb {
                                assert(!l.contains_key(successor_id)) by {
                                    if l.contains_key(successor_id) {
                                        assert(pm.contains_key(l[successor_id]) && pm[l[successor_id]]@.contains(successor_id));
                                    }
                                }
                            }
                        }
                        self.push_pending(start_time, successor_id);
                        let ghost l1 = l.insert(successor_id, start_time);
                        let ghost pm1 = self.pending_operation_ids@;
                        proof {
                            if hb {
                            assert(pending_ok(pm1, l1)) by {
                                assert forall|kk: u32| #[trigger] pm1.contains_key(kk) implies pm1[kk]@.no_duplicates() by {
                                    if kk == start_time && pm.contains_key(kk) {
                                        let q0 = pm[kk]@;
                                        assert(!q0.contains(successor_id)) by {
                                            if q0.contains(successor_id) {
                                                let jj = choose|jj: int| 0 <= jj < q0.len() && q0[jj] == successor_id;
                                                assert(l.contains_key(q0[jj]));
                                            }
                                        }
                                        assert forall|a: int, b: int| 0 <= a < pm1[kk]@.len() && 0 <= b < pm1[kk]@.len() && a != b
                                            implies pm1[kk]@[a] != pm1[kk]@[b] by {
                                            if a == q0.len() {
                                                assert(pm1[kk]@[b] == q0[b]);
                                            } else if b == q0.len() {
                                                assert(pm1[kk]@[a] == q0[a]);
                                            } else {
                                                assert(pm1[kk]@[a] == q0[a] && pm1[kk]@[b] == q0[b]);
                                            }
                                        }
                                    }
                                }
                                assert forall|kk: u32, i: int| pm1.contains_key(kk) && 0 <= i < pm1[kk]@.len()
                                    implies l1.contains_key(#[trigger] pm1[kk]@[i]) && l1[pm1[kk]@[i]] == kk by {
                                    if kk == start_time {
                                        if pm.contains_key(kk) && i < pm[kk]@.len() {
                                            assert(pm1[kk]@[i] == pm[kk]@[i]);
                                            assert(l.contains_key(pm[kk]@[i]));
                                        }
                                    } else {
                                        assert(pm1[kk] == pm[kk]);
                                        assert(l.contains_key(pm[kk]@[i]));
                                    }
                                }
                                assert forall|x: usize| #[trigger] l1.contains_key(x) implies pm1.contains_key(l1[x]) && pm1[l1[x]]@.contains(x) by {
                                    if x == successor_id {
                                        assert(pm1[start_time]@[pm1[start_time]@.len() - 1] == x);
                                    } else {
                                        let kx = l[x];
                                        assert(pm.contains_key(kx) && pm[kx]@.contains(x));
                                        if kx == start_time {
                                            let jj = choose|jj: int| 0 <= jj < pm[kx]@.len() && pm[kx]@[jj] == x;
                                            assert(pm1[kx]@[jj] == x);
                                        }
                                    }
                                }
                            }
                            }
                            l = l1;
                            assert(preds(ops, successor_id as int).contains(completed[k as int])) by {
                                lemma_mirror(ops, bs.len() as int, self.resource_groups@.len() as int, c, successor_id);
                                assert(succs(ops, c as int).contains(successor_id));
                            }
                            assert(queued_in_range(pm1, n as int)) by {
                                assert forall|kk: u32, i: int| pm1.contains_key(kk) && 0 <= i < pm1[kk]@.len()
                                    implies #[trigger] pm1[kk]@[i] < n by {
                                    if kk == start_time {
                                        if pm.contains_key(kk) && i < pm[kk]@.len() {
                                            assert(pm1[kk]@[i] == pm[kk]@[i]);
                                        }
                                    } else {
                                        assert(pm1[kk] == pm[kk]);
                                    }
                                }
                            }
                            assert(queues_sortable(self, strategy)) by {
                                assert forall|kk: u32| #[trigger] self.pending_operation_ids@.contains_key(kk) implies
                                    keys_computable(self.operations@, self.batches@, path_lengths_of(self.critical_path_data), strategy,
                                        self.pending_operation_ids@[kk]@) by {
                                    let q = self.pending_operation_ids@[kk]@;
                                    assert forall|jj: int| 0 <= jj < q.len() implies #[trigger] q[jj] < n by {
                                        assert(pm1[kk]@[jj] < n);
                                    }
                                }
                            }
                        }
                        let ghost pm2 = self.pending_operation_ids@;
                        self.sort_pending_queue(start_time, strategy);
                        proof {
                            let pm3 = self.pending_operation_ids@;
                            if !(strategy is Random) {
                                assert forall|kk: u32| #[trigger] pm3.contains_key(kk)
                                    && (!old(self).pending_operation_ids@.contains_key(kk) || pm3[kk] != old(self).pending_operation_ids@[kk])
                                    implies sorted_by_key(pm3[kk]@, ops, bs, path_lengths_of(self.critical_path_data), strategy) by {
                                    if kk != start_time {
                                        assert(pm3[kk] == pm2[kk]);
                                        assert(pm2[kk] == pm[kk]);
                                    }
                                }
                            }
                            crate::serial::lemma_permutation(pm2[start_time]@, pm3[start_time]@);
                            assert(queued_in_range(pm3, n as int)) by {
                                assert forall|kk: u32, i: int| pm3.contains_key(kk) && 0 <= i < pm3[kk]@.len()
                                    implies #[trigger] pm3[kk]@[i] < n by {
                                    if kk == start_time {
                                        assert(pm3[kk]@.contains(pm3[kk]@[i]));
                                        assert(pm2[kk]@.contains(pm3[kk]@[i]));
                                        let i2 = choose|i2: int| 0 <= i2 < pm2[kk]@.len() && pm2[kk]@[i2] == pm3[kk]@[i];
                                        assert(pm2[kk]@[i2] < n);
                                    } else {
                                        assert(pm3[kk] == pm2[kk]);
                                    }
                                }
                            }
                            if hb {
                            assert(pending_ok(pm3, l)) by {
                                assert forall|kk: u32, i: int| pm3.contains_key(kk) && 0 <= i < pm3[kk]@.len()
                                    implies l.contains_key(#[trigger] pm3[kk]@[i]) && l[pm3[kk]@[i]] == kk by {
                                    if kk == start_time {
                                        assert(pm3[kk]@.contains(pm3[kk]@[i]));
                                        assert(pm2[kk]@.contains(pm3[kk]@[i]));
                                    } else {
                                        assert(pm3[kk] == pm2[kk]);
                                    }
                                }
                                assert forall|x: usize| #[trigger] l.contains_key(x) implies pm3.contains_key(l[x]) && pm3[l[x]]@.contains(x) by {
                                    if l[x] != start_time {
                                        assert(pm3[l[x]] == pm2[l[x]]);
                                    }
                                }
                                assert forall|kk: u32| #[trigger] pm3.contains_key(kk) implies pm3[kk]@.no_duplicates() by {
                                    if kk != start_time {
                                        assert(pm3[kk] == pm2[kk]);
                                    }
                                }
                            }
                            }
                        }
                        proof {
                            let pm3 = self.pending_operation_ids@;
                            assert(pm3.dom() =~= pm.dom().insert(start_time));
                            assert forall|kk: u32| kk != start_time && #[trigger] pm.contains_key(kk) implies pm3[kk] == pm[kk] by {
                                assert(pm2.contains_key(kk));
                                assert(pm2[kk] == pm[kk]);
                            }
                            added = lemma_requeue(old(self).pending_operation_ids@, pm, pm3, added, loc, l0, start_time, successor_id,
                                ops, bs, path_lengths_of(self.critical_path_data), strategy, hb);
                        }
                    }
                }
                proof {
                    if hb {
                    assert forall|u: int| 0 <= u < n && #[trigger] ready(ops, u) implies l.contains_key(u as usize)
                        || succs(ops, c as int).skip(j + 1).contains(u as usize)
                        || exists|kk: int| k < kk < nc && succs(ops, #[trigger] completed[kk] as int).contains(u as usize) by {
                        if !l.contains_key(u as usize) && succs(ops, c as int).skip(j as int).contains(u as usize) {
                            let sk = succs(ops, c as int).skip(j as int);
                            let q = choose|q: int| 0 <= q < sk.len() && sk[q] == u as usize;
                            if q == 0 {
                                assert(u as usize == successor_id);
                            } else {
                                assert(succs(ops, c as int).skip(j + 1)[q - 1] == u as usize);
                            }
                        }
                    }
                    }
                }
                j = j + 1;
            }
            proof {
                if hb {
                assert forall|u: int| 0 <= u < n && #[trigger] ready(ops, u) implies l.contains_key(u as usize)
                    || exists|kk: int| k + 1 <= kk < nc && succs(ops, #[trigger] completed[kk] as int).contains(u as usize) by {
                    if succs(ops, c as int).skip(ns as int).contains(u as usize) {
                        assert(succs(ops, c as int).skip(ns as int).len() == 0);
                    }
                }
                }
            }
            k = k + 1;
        }
        proof {
            if hb {
                assert(newly_queued(added, loc, l));
            }
            assert(self.pending_operation_ids@.dom() == old(self).pending_operation_ids@.dom().union(added.dom()));
        }
        Ghost(l)
    }

    /// Latest end among the placed predecessors of the operation (0 for none).
    fn max_predecessor_end(&self, operation_id: OperationId) -> (t: Time)
        requires
            self.wf(),
            operation_id < self.operations@.len(),
        ensures
            t == max_end_of(self.operations@, preds(self.operations@, operation_id as int)),
    {
        let ghost ops = self.operations@;
        let np = self.operations[operation_id].predecessor_ids.len();
        let mut m: Time = 0;
        let mut j: usize = 0;
        while j < np
            invariant
                ops == self.operations@,
                self.wf(),
                operation_id < ops.len(),
                np == preds(ops, operation_id as int).len(),
                0 <= j <= np,
                m == max_end_of(ops, preds(ops, operation_id as int).take(j as int)),
            decreases np - j,
        {
            let p = self.operations[operation_id].predecessor_ids[j];
            proof {
                crate::placement::lemma_max_end_of_take(ops, preds(ops, operation_id as int), j as int);
                assert(preds(ops, operation_id as int)[j as int] < ops.len());
            }
            let e: Time = match self.operations[p].scheduled_span {
                Some(span) => span.end,
                None => 0,
            };
            if e > m {
                m = e;
            }
            j = j + 1;
        }
        proof {
            assert(preds(ops, operation_id as int).take(np as int) =~= preds(ops, operation_id as int));
        }
        m
    }

    /// Parallel schedule generation: time advances from event to event; at
    /// each time the queued operations are tried in strategy order and
    /// started on a free resource of their group, or queued again at the
    /// earliest time one is free, and successors that become ready are
    /// queued.
    #[verifier::rlimit(80)]
    #[verifier::spinoff_prover]
    pub fn compute_parallel(&mut self, strategy: SortStrategy) -> (r: Result<(), ScheduleError>)
        requires
            old(self).wf(),
            old(self).in_degrees_fit(),
            horizon(old(self).operations@, old(self).batches@, old(self).resource_groups@)
                + total_duration(old(self).operations@) < Time::MAX,
            old(self).strategy_fits(strategy),
            forall|i: int| 0 <= i < old(self).operations@.len() ==> (#[trigger] old(self).operations@[i]).scheduled_span is None,
            old(self).pending_operation_ids@ == Map::<u32, VecDeque<OperationId>>::empty(),
        ensures
            same_problem(old(self).operations@, final(self).operations@),
            final(self).batches@ == old(self).batches@,
            groups_extended(old(self).resource_groups@, final(self).resource_groups@),
            r is Ok <==> has_topological_order(old(self).operations@)
                && groups_staffed(old(self).operations@, old(self).resource_groups@),
            !has_topological_order(old(self).operations@) ==> (r matches Err(e) && e is CycleDetected),
            r matches Err(e) ==> (e is CycleDetected && !has_topological_order(old(self).operations@))
                || (e matches ScheduleError::ResourceGroupCannotAllocate { resource_group_id, operation_id }
                    && operation_id < old(self).operations@.len()
                    && old(self).operations@[operation_id as int].assigned_resource_group_id == resource_group_id
                    && old(self).resource_groups@[resource_group_id as int].resources@.len() == 0),
            r is Ok ==> run_placed_all(old(self).operations@, final(self).operations@, final(self).batches@, final(self).resource_groups@),
            r is Ok ==> execute_time_of(final(self).operations@)
                <= horizon(old(self).operations@, old(self).batches@, old(self).resource_groups@) + total_duration(old(self).operations@),
            r is Ok ==> (final(self).critical_path_data matches Some(cp)
                && crate::critical_path::critical_path_consistent(final(self).operations@, final(self).batches@, cp)
                && execute_time_of(final(self).operations@) >= crate::sums::seq_max(cp.earliest_finish@)
                && forall|v: int| 0 <= v < final(self).operations@.len()
                    ==> (#[trigger] final(self).operations@[v]).scheduled_span->0.start >= cp.earliest_start@[v]),
            r is Ok ==> exists|order: Seq<usize>| #[trigger] parallel_order(old(self).operations@, final(self).operations@,
                old(self).resource_groups@, final(self).resource_groups@, order)
                && takes_unplaced(old(self).operations@, order)
                && (!(strategy is Random) ==> parallel_priority(old(self).operations@, final(self).operations@,
                    final(self).batches@, old(self).resource_groups@, path_lengths_of(final(self).critical_path_data), strategy, order))
                && starts_without_delay(final(self).operations@, final(self).batches@, old(self).resource_groups@, order),
            r matches Err(e) && e is CycleDetected ==> *final(self) == *old(self),
    {
        let ghost ops0 = self.operations@;
        let ghost batches0 = self.batches@;
        let ghost groups0 = self.resource_groups@;
        let ghost h = horizon(ops0, batches0, groups0);
        let n = self.operations.len();
        proof {
            lemma_horizon(ops0, batches0, groups0);
            assert(crate::sums::max_batch_start(batches0) <= h);
            assert(self.pending_operation_ids@.dom() =~= Set::<u32>::empty());
        }
        let cp = match self.compute_critical_path_data() {
            Ok(cp) => cp,
            Err(e) => {
                proof {
                    assert(same_problem(ops0, ops0));
                    assert(groups_extended(groups0, groups0)) by {
                        assert forall|g: int, r: int| 0 <= g < groups0.len() && 0 <= r < groups0[g].resources@.len()
                            implies (#[trigger] groups0[g].resources@[r]).allocations@.is_prefix_of(groups0[g].resources@[r].allocations@) by {
                            assert(groups0[g].resources@[r].allocations@.subrange(0, groups0[g].resources@[r].allocations@.len() as int)
                                =~= groups0[g].resources@[r].allocations@);
                        }
                    }
                }
                return Err(e);
            },
        };
        let ghost cp0 = cp;
        self.critical_path_data = Some(cp);
        proof {
            assert(self.critical_path_data == Some(cp0));
        }
        self.init_pending_opeations(strategy);
        let ghost mut loc: Map<usize, u32> = Map::new(
            |x: usize| x < n && preds(ops0, x as int).len() == 0,
            |x: usize| root_time(ops0, batches0, x as int) as u32,
        );
        proof {
            let pm = self.pending_operation_ids@;
            let ops = self.operations@;
            assert(ops == ops0);
            assert(placed_flags(ops) =~= crate::schedule::none_done(n as nat));
            lemma_sum_dur_le_total(ops0, placed_flags(ops), n as int);
            assert(sum_dur(ops0, placed_flags(ops), n as int) == 0) by {
                crate::sums::lemma_sum_dur_ext(ops0, placed_flags(ops), crate::schedule::none_done(n as nat), n as int);
                lemma_zero_sum(ops0, n as int);
            }
            assert(same_problem(ops0, ops));
            assert(groups_extended(groups0, self.resource_groups@)) by {
                assert forall|g: int, r: int| 0 <= g < groups0.len() && 0 <= r < groups0[g].resources@.len()
                    implies (#[trigger] groups0[g].resources@[r]).allocations@.is_prefix_of(groups0[g].resources@[r].allocations@) by {
                    assert(groups0[g].resources@[r].allocations@.subrange(0, groups0[g].resources@[r].allocations@.len() as int)
                        =~= groups0[g].resources@[r].allocations@);
                }
            }
            assert(pending_ok(pm, loc)) by {
                assert forall|k: u32, i: int| pm.contains_key(k) && 0 <= i < pm[k]@.len()
                    implies loc.contains_key(#[trigger] pm[k]@[i]) && loc[pm[k]@[i]] == k by {
                    assert(pm[k]@[i] < n);
                }
            }
            assert(queued_ok(ops, batches0, loc, 0, h)) by {
                assert forall|x: usize| #[trigger] loc.contains_key(x) implies {
                    &&& x < ops.len()
                    &&& ready(ops, x as int)
                    &&& 0 <= loc[x]
                    &&& earliest_of(ops, batches0, x as int) <= loc[x]
                    &&& loc[x] <= h
                } by {
                    assert(batches0[ops[x as int].assigned_batch_id as int].start_time <= h);
                }
            }
            assert(keys_within(pm, 0, h)) by {
                assert forall|k: u32| #[trigger] pm.contains_key(k) implies 0 <= k <= h by {
                    assert(pm[k]@[0] < n);
                    assert(batches0[ops[pm[k]@[0] as int].assigned_batch_id as int].start_time <= h);
                }
            }
            assert(deferred_ok(ops, batches0, self.resource_groups@, loc)) by {
                assert forall|y: usize, v: int| #![trigger loc.contains_key(y), blocked_at(ops, self.resource_groups@, y as int, v)]
                    loc.contains_key(y) && earliest_of(ops, batches0, y as int) <= v < loc[y]
                    implies blocked_at(ops, self.resource_groups@, y as int, v) by {
                    assert(earliest_of(ops, batches0, y as int) >= root_time(ops, batches0, y as int));
                }
            }
        }
        proof {
            assert(self.operations@ == ops0);
            assert(path_lengths_of(self.critical_path_data) == cp0.path_lengths@);
        }
        let mut current_time: Time = 0;
        let mut unscheduled_operations_count: usize = n;
        let ghost mut order: Seq<usize> = Seq::empty();
        proof {
            assert(allocations_follow(self.operations@, groups0, self.resource_groups@, order));
            assert forall|i: int| 0 <= i < ops0.len() implies (#[trigger] placed_flags(self.operations@)[i] <==> order.contains(i as usize)) by {}
            assert(parallel_progress(ops0, self.operations@, groups0, self.resource_groups@, order, 0));
            assert forall|u: int| 0 <= u < n && #[trigger] ready(self.operations@, u) implies loc.contains_key(u as usize) by {
                if preds(ops0, u).len() > 0 {
                    assert(preds(ops0, u)[0] < n);
                    assert(ops0[preds(ops0, u)[0] as int].scheduled_span is None);
                }
            }
            assert(count_true(placed_flags(self.operations@), n as int) == 0) by {
                lemma_zero_count(placed_flags(self.operations@), n as int);
            }
        }
        while unscheduled_operations_count > 0
            invariant
                ops0 == old(self).operations@,
                batches0 == old(self).batches@,
                groups0 == old(self).resource_groups@,
                n == ops0.len(),
                par_state(self, ops0, batches0, groups0, h, strategy),
                parallel_progress(ops0, self.operations@, groups0, self.resource_groups@, order, current_time as int),
                pending_ok(self.pending_operation_ids@, loc),
                queued_ok(self.operations@, batches0, loc, current_time as int,
                    h + sum_dur(ops0, placed_flags(self.operations@), n as int)),
                keys_within(self.pending_operation_ids@, current_time as int,
                    h + sum_dur(ops0, placed_flags(self.operations@), n as int)),
                current_time <= h + sum_dur(ops0, placed_flags(self.operations@), n as int),
                forall|u: int| 0 <= u < n && #[trigger] ready(self.operations@, u) ==> loc.contains_key(u as usize),
                unscheduled_operations_count == n - count_true(placed_flags(self.operations@), n as int),
                self.critical_path_data == Some(cp0),
                !(strategy is Random) ==> queues_sorted(self.pending_operation_ids@, ops0, batches0, cp0.path_lengths@, strategy),
                deferred_ok(self.operations@, batches0, self.resource_groups@, loc),
                !(strategy is Random) ==> parallel_priority(ops0, self.operations@, batches0, groups0, cp0.path_lengths@, strategy, order),
                starts_without_delay(self.operations@, batches0, groups0, order),
            ensures
                unscheduled_operations_count == 0,
            decreases Time::MAX - current_time,
        {
            loop
                invariant
                    ops0 == old(self).operations@,
                    batches0 == old(self).batches@,
                    groups0 == old(self).resource_groups@,
                    n == ops0.len(),
                    par_state(self, ops0, batches0, groups0, h, strategy),
                    parallel_progress(ops0, self.operations@, groups0, self.resource_groups@, order, current_time as int),
                    pending_ok(self.pending_operation_ids@, loc),
                    queued_ok(self.operations@, batches0, loc, current_time as int,
                        h + sum_dur(ops0, placed_flags(self.operations@), n as int)),
                    keys_within(self.pending_operation_ids@, current_time as int,
                        h + sum_dur(ops0, placed_flags(self.operations@), n as int)),
                    current_time <= h + sum_dur(ops0, placed_flags(self.operations@), n as int),
                    forall|u: int| 0 <= u < n && #[trigger] ready(self.operations@, u) ==> loc.contains_key(u as usize),
                    unscheduled_operations_count == n - count_true(placed_flags(self.operations@), n as int),
                    self.critical_path_data == Some(cp0),
                    !(strategy is Random) ==> queues_sorted(self.pending_operation_ids@, ops0, batches0, cp0.path_lengths@, strategy),
                    deferred_ok(self.operations@, batches0, self.resource_groups@, loc),
                    !(strategy is Random) ==> parallel_priority(ops0, self.operations@, batches0, groups0, cp0.path_lengths@, strategy, order),
                    starts_without_delay(self.operations@, batches0, groups0, order),
                ensures
                    !self.pending_operation_ids@.contains_key(current_time),
                decreases unscheduled_operations_count,
            {
                let mut any_scheduled: bool = false;
                let mut current_completed: Vec<OperationId> = Vec::new();
                let ghost count_start = unscheduled_operations_count;
                let ghost pm_before = self.pending_operation_ids@;
                proof {
                    lemma_count_true_bounds(placed_flags(self.operations@), n as int);
                }
                let removed = self.pending_operation_ids.remove(&current_time);
                let ghost queue0: Seq<usize> = match &removed {
                    Some(q) => q@,
                    None => Seq::empty(),
                };
                let ghost mut l: Map<usize, u32> = Map::new(
                    |x: usize| loc.contains_key(x) && loc[x] != current_time,
                    |x: usize| loc[x],
                );
                let mut current_time_queue: VecDeque<OperationId> = match removed {
                    Some(q) => q,
                    None => VecDeque::new(),
                };
                proof {
                    let pm = self.pending_operation_ids@;
                    assert(pm == pm_before.remove(current_time));
                    assert(pending_ok(pm, l)) by {
                        assert forall|k: u32, i: int| pm.contains_key(k) && 0 <= i < pm[k]@.len()
                            implies l.contains_key(#[trigger] pm[k]@[i]) && l[pm[k]@[i]] == k by {
                            assert(pm[k] == pm_before[k]);
                            assert(loc.contains_key(pm_before[k]@[i]));
                        }
                        assert forall|x: usize| #[trigger] l.contains_key(x) implies pm.contains_key(l[x]) && pm[l[x]]@.contains(x) by {
                            assert(loc.contains_key(x));
                        }
                    }
                    assert forall|k: int| 0 <= k < queue0.len() implies loc.contains_key(#[trigger] queue0[k]) && loc[queue0[k]] == current_time by {
                        assert(pm_before.contains_key(current_time));
                        assert(pm_before[current_time]@[k] == queue0[k]);
                    }
                    assert forall|x: usize| #[trigger] loc.contains_key(x) && loc[x] == current_time implies queue0.contains(x) by {
                        assert(pm_before.contains_key(current_time));
                    }
                    if pm_before.contains_key(current_time) {
                        assert(queue0.no_duplicates());
                    }
                    assert(queue0.skip(0) =~= queue0);
                    if !(strategy is Random) && pm_before.contains_key(current_time) {
                        assert(sorted_by_key(pm_before[current_time]@, ops0, batches0, cp0.path_lengths@, strategy));
                    }
                    assert forall|kq: int, v: int| 0 <= kq < queue0.len()
                        && earliest_of(self.operations@, batches0, queue0[kq] as int) <= v < current_time
                        implies #[trigger] blocked_at(self.operations@, self.resource_groups@, queue0[kq] as int, v) by {
                        assert(loc.contains_key(queue0[kq]) && loc[queue0[kq]] == current_time);
                    }
                    assert forall|y: usize, v: int| #![trigger l.contains_key(y), blocked_at(self.operations@, self.resource_groups@, y as int, v)]
                        l.contains_key(y) && earliest_of(self.operations@, batches0, y as int) <= v < l[y]
                        implies blocked_at(self.operations@, self.resource_groups@, y as int, v) by {
                        assert(loc.contains_key(y));
                    }
                }
                let initial_queue_len: usize = current_time_queue.len();
                let mut i: usize = 0;
                while i < initial_queue_len
                    invariant
                        ops0 == old(self).operations@,
                        batches0 == old(self).batches@,
                        groups0 == old(self).resource_groups@,
                        n == ops0.len(),
                        par_state(self, ops0, batches0, groups0, h, strategy),
                        parallel_progress(ops0, self.operations@, groups0, self.resource_groups@, order, current_time as int),
                        0 <= i <= initial_queue_len,
                        initial_queue_len == queue0.len(),
                        current_time_queue@ == queue0.skip(i as int),
                        queue0.no_duplicates(),
                        forall|k: int| 0 <= k < queue0.len() ==> loc.contains_key(#[trigger] queue0[k]) && loc[queue0[k]] == current_time,
                        forall|k: int| i <= k < queue0.len() ==> {
                            let x = #[trigger] queue0[k];
                            &&& x < n
                            &&& ready(self.operations@, x as int)
                            &&& earliest_of(self.operations@, batches0, x as int) <= current_time
                            &&& !l.contains_key(x)
                        },
                        pending_ok(self.pending_operation_ids@, l),
                        queued_ok(self.operations@, batches0, l, current_time as int,
                            h + sum_dur(ops0, placed_flags(self.operations@), n as int)),
                        forall|x: usize| #[trigger] l.contains_key(x) ==> l[x] != current_time,
                        keys_within(self.pending_operation_ids@, current_time as int,
                            h + sum_dur(ops0, placed_flags(self.operations@), n as int)),
                        !self.pending_operation_ids@.contains_key(current_time),
                        current_time <= h + sum_dur(ops0, placed_flags(self.operations@), n as int),
                        current_completed@.no_duplicates(),
                        forall|k: int| 0 <= k < current_completed@.len() ==> #[trigger] current_completed@[k] < n
                            && self.operations@[current_completed@[k] as int].scheduled_span is Some,
                        forall|x: usize, k: int| #[trigger] l.contains_key(x) && 0 <= k < current_completed@.len()
                            ==> !preds(self.operations@, x as int).contains(#[trigger] current_completed@[k]),
                        forall|kq: int, k: int| i <= kq < queue0.len() && 0 <= k < current_completed@.len()
                            ==> !preds(self.operations@, #[trigger] queue0[kq] as int).contains(#[trigger] current_completed@[k]),
                        forall|u: int| 0 <= u < n && #[trigger] ready(self.operations@, u) ==> l.contains_key(u as usize)
                            || queue0.skip(i as int).contains(u as usize)
                            || exists|k: int| 0 <= k < current_completed@.len()
                                && succs(self.operations@, #[trigger] current_completed@[k] as int).contains(u as usize),
                        unscheduled_operations_count == n - count_true(placed_flags(self.operations@), n as int),
                        unscheduled_operations_count + current_completed@.len() == count_start,
                        any_scheduled == (current_completed@.len() > 0),
                        self.critical_path_data == Some(cp0),
                        !(strategy is Random) ==> sorted_by_key(queue0, ops0, batches0, cp0.path_lengths@, strategy),
                        deferred_ok(self.operations@, batches0, self.resource_groups@, l),
                        !(strategy is Random) ==> parallel_priority(ops0, self.operations@, batches0, groups0, cp0.path_lengths@, strategy, order),
                        starts_without_delay(self.operations@, batches0, groups0, order),
                        forall|kq: int, v: int| i <= kq < queue0.len()
                            && earliest_of(self.operations@, batches0, queue0[kq] as int) <= v < current_time
                            ==> #[trigger] blocked_at(self.operations@, self.resource_groups@, queue0[kq] as int, v),
                        forall|kk: int| 0 <= kk < current_completed@.len()
                            ==> (self.operations@[#[trigger] current_completed@[kk] as int].scheduled_span matches Some(sp)
                                && sp.start == current_time),
                    decreases initial_queue_len - i,
                {
                    let ghost s0 = *self;
                    let ghost ops = self.operations@;
                    let ghost groups = self.resource_groups@;
                    let ghost spent = sum_dur(ops0, placed_flags(ops), n as int);
                    let ghost l0 = l;
                    let ghost done0 = current_completed@;
                    let operation_id = current_time_queue.pop_front().unwrap();
                    proof {
                        assert(operation_id == queue0[i as int]);
                        assert(current_time_queue@ =~= queue0.skip(i + 1));
                        lemma_count_true_bounds(placed_flags(ops), n as int);
                        lemma_sum_dur_le_total(ops0, placed_flags(ops), n as int);
                        assert(ops[operation_id as int].duration == ops0[operation_id as int].duration);
                        assert(ready(ops, operation_id as int));
                        lemma_sum_dur_set(ops0, placed_flags(ops), n as int, operation_id as int);
                        lemma_sum_dur_le_total(ops0, placed_flags(ops).update(operation_id as int, true), n as int);
                    }
                    let g = self.operations[operation_id].assigned_resource_group_id;
                    let d = self.operations[operation_id].duration;
                    proof {
                        assert(g < groups.len());
                        assert forall|rr: int| 0 <= rr < groups[g as int].resources@.len()
                            implies crate::worker::ends_fit(#[trigger] groups[g as int].resources@[rr].allocations@, d as int) by {
                            assert forall|k: int| 0 <= k < groups[g as int].resources@[rr].allocations@.len()
                                implies #[trigger] groups[g as int].resources@[rr].allocations@[k].end + d <= Time::MAX by {
                                assert(groups[g as int].resources@[rr].allocations@[k].end <= h + spent);
                            }
                        }
                    }
                    match self.resource_groups[g].find_best_resource_for_operation(d, current_time) {
                        Some((rid, span)) => {
                            let ghost allocs = groups[g as int].resources@[rid as int].allocations@;
                            proof {
                                lemma_free_start(allocs, d as int, current_time as int);
                                lemma_max_end_bounds(allocs);
                            }
                            if span.start == current_time {
                                self.resource_groups[g].allocate_resource(rid, span);
                                self.operations[operation_id].assigned_resource_id = Some(rid);
                                self.operations[operation_id].scheduled_span = Some(span);
                                proof {
                                    let s1 = *self;
                                    assert forall|ii: int| 0 <= ii < n && ii != operation_id implies #[trigger] s1.operations@[ii] == ops[ii] by {}
                                    assert forall|gg: int| 0 <= gg < groups.len() && gg != g implies #[trigger] s1.resource_groups@[gg] == groups[gg] by {}
                                    assert(placed_one(ops, s1.operations@, operation_id as int, rid, span));
                                    assert(allocated_one(groups, s1.resource_groups@, g as int, rid as int, span));
                                    lemma_par_place(s0, s1, ops0, batches0, groups0, h, strategy, operation_id as int, rid, span, current_time as int);
                                    if !(strategy is Random) {
                                        assert(groups.len() == groups0.len());
                                        lemma_waiting_blocked(ops0, ops, batches0, groups, cp0.path_lengths@, strategy, queue0, i as int,
                                            l, done0, current_time as int, groups0.len() as int);
                                        assert forall|k: int| 0 <= k < order.len() implies #[trigger] order[k] < ops.len()
                                            && (ops[order[k] as int].scheduled_span matches Some(sp) && sp.start <= span.start) by {
                                            assert(order.contains(order[k]));
                                            assert(placed_flags(ops)[order[k] as int]);
                                        }
                                        lemma_priority_extend(ops0, ops, s1.operations@, batches0, groups0, groups, cp0.path_lengths@,
                                            strategy, order, operation_id, rid, span, groups0.len() as int);
                                    }
                                    let est = earliest_of(ops, batches0, operation_id as int);
                                    assert forall|v: int| est <= v < current_time implies
                                        #[trigger] all_busy_at(groups[g as int].resources@, v, d as int) by {
                                        assert(blocked_at(ops, groups, queue0[i as int] as int, v));
                                    }
                                    crate::worker::lemma_best_from_earlier(groups[g as int].resources@, d as int, est,
                                        current_time as int, rid as int, current_time as int);
                                    lemma_nondelay_step(ops0, ops, s1.operations@, batches0, groups0, groups, s1.resource_groups@,
                                        order, operation_id, rid, span, current_time as int);
                                    lemma_parallel_order_step(ops0, ops, s1.operations@, groups0, groups, s1.resource_groups@, order,
                                        operation_id, rid, span, current_time as int, batches0.len() as int);
                                    order = order.push(operation_id);
                                    lemma_count_true_bounds(placed_flags(s1.operations@), n as int);
                                    let ops1 = s1.operations@;
                                    let groups1 = s1.resource_groups@;
                                    let x = operation_id as int;
                                    assert forall|y: usize, v: int| #![trigger l.contains_key(y), blocked_at(ops1, groups1, y as int, v)]
                                        l.contains_key(y) && earliest_of(ops1, batches0, y as int) <= v < l[y]
                                        implies blocked_at(ops1, groups1, y as int, v) by {
                                        assert(ready(ops, y as int));
                                        assert(y != operation_id);
                                        assert(!preds(ops, y as int).contains(operation_id)) by {
                                            if preds(ops, y as int).contains(operation_id) {
                                                let q = choose|q: int| 0 <= q < preds(ops, y as int).len() && preds(ops, y as int)[q] == operation_id;
                                                assert(ops[preds(ops, y as int)[q] as int].scheduled_span is Some);
                                            }
                                        }
                                        assert forall|q: int| 0 <= q < preds(ops, y as int).len() implies #[trigger] preds(ops, y as int)[q] < ops.len() by {}
                                        lemma_waiting_frame(ops, ops1, batches0, groups, groups1, x, rid, span, g as int, y as int, v);
                                    }
                                    assert forall|kq: int, v: int| i + 1 <= kq < queue0.len()
                                        && earliest_of(ops1, batches0, queue0[kq] as int) <= v < current_time
                                        implies #[trigger] blocked_at(ops1, groups1, queue0[kq] as int, v) by {
                                        let y = queue0[kq];
                                        assert(ready(ops, y as int));
                                        assert(y != operation_id) by {
                                            assert(queue0[i as int] == operation_id);
                                        }
                                        assert(!preds(ops, y as int).contains(operation_id)) by {
                                            if preds(ops, y as int).contains(operation_id) {
                                                let q = choose|q: int| 0 <= q < preds(ops, y as int).len() && preds(ops, y as int)[q] == operation_id;
                                                assert(ops[preds(ops, y as int)[q] as int].scheduled_span is Some);
                                            }
                                        }
                                        assert forall|q: int| 0 <= q < preds(ops, y as int).len() implies #[trigger] preds(ops, y as int)[q] < ops.len() by {}
                                        lemma_waiting_frame(ops, ops1, batches0, groups, groups1, x, rid, span, g as int, y as int, v);
                                    }
                                }
                                unscheduled_operations_count -= 1;
                                current_completed.push(operation_id);
                                any_scheduled = true;
                                proof {
                                    let ops1 = self.operations@;
                                    let spent1 = sum_dur(ops0, placed_flags(ops1), n as int);
                                    let done1 = current_completed@;
                                    assert(done1 == done0.push(operation_id));
                                    assert forall|kk: int| 0 <= kk < done1.len() implies
                                        (ops1[#[trigger] done1[kk] as int].scheduled_span matches Some(sp) && sp.start == current_time) by {
                                        if kk < done0.len() {
                                            assert(done1[kk] == done0[kk]);
                                            assert(ops[done0[kk] as int].scheduled_span is Some);
                                            assert(done0[kk] != operation_id);
                                            assert(ops1[done0[kk] as int] == ops[done0[kk] as int]);
                                        }
                                    }
                                    assert(done1.no_duplicates()) by {
                                        assert forall|a: int, b: int| 0 <= a < done1.len() && 0 <= b < done1.len() && a != b
                                            implies done1[a] != done1[b] by {
                                            if a == done0.len() {
                                                assert(ops[done0[b] as int].scheduled_span is Some);
                                            } else if b == done0.len() {
                                                assert(ops[done0[a] as int].scheduled_span is Some);
                                            } else {
                                                assert(done1[a] == done0[a] && done1[b] == done0[b]);
                                            }
                                        }
                                    }
                                    assert forall|k: int| 0 <= k < done1.len() implies #[trigger] done1[k] < n
                                        && ops1[done1[k] as int].scheduled_span is Some by {
                                        if k < done0.len() {
                                            assert(done1[k] == done0[k]);
                                            assert(ops[done0[k] as int].scheduled_span is Some);
                                            if done0[k] != operation_id {
                                                assert(ops1[done0[k] as int] == ops[done0[k] as int]);
                                            }
                                        }
                                    }
                                    assert(queued_ok(ops1, batches0, l, current_time as int, h + spent1)) by {
                                        assert forall|y: usize| #[trigger] l.contains_key(y) implies {
                                            &&& y < ops1.len()
                                            &&& ready(ops1, y as int)
                                            &&& current_time <= l[y]
                                            &&& earliest_of(ops1, batches0, y as int) <= l[y]
                                            &&& l[y] <= h + spent1
                                        } by {
                                            assert(ready(ops, y as int));
                                            assert(y != operation_id);
                                        }
                                    }
                                    assert forall|k: int| i + 1 <= k < queue0.len() implies {
                                        let y = #[trigger] queue0[k];
                                        &&& y < n
                                        &&& ready(ops1, y as int)
                                        &&& earliest_of(ops1, batches0, y as int) <= current_time
                                        &&& !l.contains_key(y)
                                    } by {
                                        let y = queue0[k];
                                        assert(ready(ops, y as int));
                                        assert(y != operation_id) by {
                                            assert(queue0[i as int] == operation_id);
                                        }
                                    }
                                    assert forall|y: usize, k: int| #[trigger] l.contains_key(y) && 0 <= k < done1.len()
                                        implies !preds(ops1, y as int).contains(#[trigger] done1[k]) by {
                                        assert(ready(ops, y as int));
                                        assert(y != operation_id);
                                        assert(preds(ops1, y as int) == preds(ops, y as int));
                                        if k < done0.len() {
                                            assert(done1[k] == done0[k]);
                                        }
                                    }
                                    assert forall|kq: int, k: int| i + 1 <= kq < queue0.len() && 0 <= k < done1.len()
                                        implies !preds(ops1, #[trigger] queue0[kq] as int).contains(#[trigger] done1[k]) by {
                                        let y = queue0[kq];
                                        assert(ready(ops, y as int));
                                        assert(y != operation_id) by {
                                            assert(queue0[i as int] == operation_id);
                                        }
                                        assert(preds(ops1, y as int) == preds(ops, y as int));
                                        if k < done0.len() {
                                            assert(done1[k] == done0[k]);
                                        }
                                    }
                                    assert forall|u: int| 0 <= u < n && #[trigger] ready(ops1, u) implies l.contains_key(u as usize)
                                        || queue0.skip(i + 1).contains(u as usize)
                                        || exists|k: int| 0 <= k < done1.len()
                                            && succs(ops1, #[trigger] done1[k] as int).contains(u as usize) by {
                                        if u != operation_id && ready(ops, u) {
                                            if !l.contains_key(u as usize) && queue0.skip(i as int).contains(u as usize) {
                                                let q = choose|q: int| 0 <= q < queue0.skip(i as int).len() && queue0.skip(i as int)[q] == u as usize;
                                                assert(q != 0);
                                                assert(queue0.skip(i + 1)[q - 1] == u as usize);
                                            } else if !l.contains_key(u as usize) {
                                                let k = choose|k: int| 0 <= k < done0.len()
                                                    && succs(ops, #[trigger] done0[k] as int).contains(u as usize);
                                                assert(done1[k] == done0[k]);
                                                assert(succs(ops1, done0[k] as int) == succs(ops, done0[k] as int));
                                            }
                                        } else {
                                            assert(succs(ops0, operation_id as int).contains(u as usize));
                                            assert(done1[done0.len() as int] == operation_id);
                                            assert(succs(ops1, operation_id as int) == succs(ops0, operation_id as int));
                                        }
                                    }
                                }
                            } else {
                                proof {
                                    assert(span.start > current_time);
                                    assert(span.start <= h + spent) by {
                                        if allocs.len() > 0 {
                                            let k = choose|k: int| 0 <= k < allocs.len() && allocs[k].end == crate::worker::max_end(allocs);
                                            assert(allocs[k].end <= h + spent);
                                        }
                                    }
                                }
                                let ghost pm = self.pending_operation_ids@;
                                self.push_pending(span.start, operation_id);
                                proof {
                                    let x = operation_id;
                                    let t1 = span.start;
                                    let pm1 = self.pending_operation_ids@;
                                    let l1 = l.insert(x, t1);
                                    assert(!l.contains_key(x));
                                    assert(pending_ok(pm1, l1)) by {
                                        assert forall|kk: u32| #[trigger] pm1.contains_key(kk) implies pm1[kk]@.no_duplicates() by {
                                            if kk == t1 && pm.contains_key(kk) {
                                                let q0 = pm[kk]@;
                                                assert(!q0.contains(x)) by {
                                                    if q0.contains(x) {
                                                        let jj = choose|jj: int| 0 <= jj < q0.len() && q0[jj] == x;
                                                        assert(l.contains_key(q0[jj]));
                                                    }
                                                }
                                                assert forall|a: int, b: int| 0 <= a < pm1[kk]@.len() && 0 <= b < pm1[kk]@.len() && a != b
                                                    implies pm1[kk]@[a] != pm1[kk]@[b] by {
                                                    if a == q0.len() {
                                                        assert(pm1[kk]@[b] == q0[b]);
                                                    } else if b == q0.len() {
                                                        assert(pm1[kk]@[a] == q0[a]);
                                                    } else {
                                                        assert(pm1[kk]@[a] == q0[a] && pm1[kk]@[b] == q0[b]);
                                                    }
                                                }
                                            }
                                        }
                                        assert forall|kk: u32, ii: int| pm1.contains_key(kk) && 0 <= ii < pm1[kk]@.len()
                                            implies l1.contains_key(#[trigger] pm1[kk]@[ii]) && l1[pm1[kk]@[ii]] == kk by {
                                            if kk == t1 {
                                                if pm.contains_key(kk) && ii < pm[kk]@.len() {
                                                    assert(pm1[kk]@[ii] == pm[kk]@[ii]);
                                                    assert(l.contains_key(pm[kk]@[ii]));
                                                }
                                            } else {
                                                assert(pm1[kk] == pm[kk]);
                                                assert(l.contains_key(pm[kk]@[ii]));
                                            }
                                        }
                                        assert forall|y: usize| #[trigger] l1.contains_key(y) implies pm1.contains_key(l1[y]) && pm1[l1[y]]@.contains(y) by {
                                            if y == x {
                                                assert(pm1[t1]@[pm1[t1]@.len() - 1] == x);
                                            } else {
                                                let ky = l[y];
                                                assert(pm.contains_key(ky) && pm[ky]@.contains(y));
                                                if ky == t1 {
                                                    let jj = choose|jj: int| 0 <= jj < pm[ky]@.len() && pm[ky]@[jj] == y;
                                                    assert(pm1[ky]@[jj] == y);
                                                }
                                            }
                                        }
                                    }
                                    assert(queued_ok(ops, batches0, l1, current_time as int, h + spent)) by {
                                        assert forall|y: usize| #[trigger] l1.contains_key(y) implies {
                                            &&& y < ops.len()
                                            &&& ready(ops, y as int)
                                            &&& current_time <= l1[y]
                                            &&& earliest_of(ops, batches0, y as int) <= l1[y]
                                            &&& l1[y] <= h + spent
                                        } by {
                                            if y != x {
                                                assert(l.contains_key(y));
                                            }
                                        }
                                    }
                                    assert forall|k: int| i + 1 <= k < queue0.len() implies {
                                        let y = #[trigger] queue0[k];
                                        &&& y < n
                                        &&& ready(ops, y as int)
                                        &&& earliest_of(ops, batches0, y as int) <= current_time
                                        &&& !l1.contains_key(y)
                                    } by {
                                        assert(queue0[k] != x) by {
                                            assert(queue0[i as int] == x);
                                        }
                                    }
                                    assert forall|y: usize, k: int| #[trigger] l1.contains_key(y) && 0 <= k < current_completed@.len()
                                        implies !preds(ops, y as int).contains(#[trigger] current_completed@[k]) by {
                                        if y == x {
                                            assert(queue0[i as int] == x);
                                        }
                                    }
                                    assert forall|u: int| 0 <= u < n && #[trigger] ready(ops, u) implies l1.contains_key(u as usize)
                                        || queue0.skip(i + 1).contains(u as usize)
                                        || exists|k: int| 0 <= k < current_completed@.len()
                                            && succs(ops, #[trigger] current_completed@[k] as int).contains(u as usize) by {
                                        if !l.contains_key(u as usize) && u != x && queue0.skip(i as int).contains(u as usize) {
                                            let q = choose|q: int| 0 <= q < queue0.skip(i as int).len() && queue0.skip(i as int)[q] == u as usize;
                                            assert(q != 0);
                                            assert(queue0.skip(i + 1)[q - 1] == u as usize);
                                        }
                                    }
                                    assert(keys_within(pm1, current_time as int, h + spent));
                                    assert forall|v: int| earliest_of(ops, batches0, x as int) <= v < current_time
                                        implies #[trigger] blocked_at(ops, groups, x as int, v) by {
                                        assert(blocked_at(ops, groups, queue0[i as int] as int, v));
                                    }
                                    lemma_deferred_push(ops, batches0, groups, l, x, current_time as int, t1, rid);
                                    l = l1;
                                }
                            }
                        },
                        None => {
                            proof {
                                assert(groups0[g as int].resources@.len() == 0);
                                assert(ops0[operation_id as int].assigned_resource_group_id == g);
                                assert(ops0[operation_id as int].scheduled_span is None);
                            }
                            return Err(ScheduleError::ResourceGroupCannotAllocate { resource_group_id: g, operation_id: operation_id });
                        },
                    }
                    i = i + 1;
                }
                let ghost spent = sum_dur(ops0, placed_flags(self.operations@), n as int);
                let ghost pm_mid = self.pending_operation_ids@;
                let ghost done = current_completed@;
                proof {
                    lemma_count_true_bounds(placed_flags(self.operations@), n as int);
                    lemma_sum_dur_le_total(ops0, placed_flags(self.operations@), n as int);
                    assert forall|u: int| 0 <= u < n && #[trigger] ready(self.operations@, u) implies l.contains_key(u as usize)
                        || exists|k: int| 0 <= k < done.len() && succs(self.operations@, #[trigger] done[k] as int).contains(u as usize) by {
                        assert(queue0.skip(initial_queue_len as int).len() == 0);
                        if queue0.skip(initial_queue_len as int).contains(u as usize) {
                            let q = choose|q: int| 0 <= q < queue0.skip(initial_queue_len as int).len()
                                && queue0.skip(initial_queue_len as int)[q] == u as usize;
                        }
                    }
                }
                let new_loc = self.add_successors_to_pending_operations(current_time, current_completed, strategy, Ghost(l), Ghost(h + spent));
                let ghost pm2 = self.pending_operation_ids@;
                proof {
                    assert(queues_sortable(self, strategy)) by {
                        assert forall|kk: u32| #[trigger] pm2.contains_key(kk) implies
                            keys_computable(self.operations@, self.batches@, path_lengths_of(self.critical_path_data), strategy, pm2[kk]@) by {
                            let q = pm2[kk]@;
                            assert forall|jj: int| 0 <= jj < q.len() implies #[trigger] q[jj] < n by {
                                assert(new_loc@.contains_key(q[jj]));
                            }
                        }
                    }
                }
                self.sort_all_pending(strategy);
                proof {
                    let pm3 = self.pending_operation_ids@;
                    lemma_pending_ok_perm(pm2, pm3, new_loc@);
                    assert forall|y: usize, v: int| #![trigger new_loc@.contains_key(y), blocked_at(self.operations@, self.resource_groups@, y as int, v)]
                        new_loc@.contains_key(y) && earliest_of(self.operations@, batches0, y as int) <= v < new_loc@[y]
                        implies blocked_at(self.operations@, self.resource_groups@, y as int, v) by {
                        if !(l.contains_key(y) && new_loc@[y] == l[y]) {
                            // `y` follows an operation placed now, so its earliest start is not before now
                            let ops = self.operations@;
                            let kk = choose|kk: int| 0 <= kk < done.len() && preds(ops, y as int).contains(#[trigger] done[kk]);
                            let q = choose|q: int| 0 <= q < preds(ops, y as int).len()
                                && preds(ops, y as int)[q] == done[kk];
                            let c = done[kk] as int;
                            assert(placed_flags(ops)[c]);
                            assert(placement_ok(ops, batches0, self.resource_groups@, c));
                            lemma_max_end_of_ge(ops, preds(ops, y as int), q);
                            assert(earliest_of(ops, batches0, y as int) >= current_time);
                        }
                    }
                    loc = new_loc@;
                    if !(strategy is Random) {
                        assert forall|kk: u32| #[trigger] pm3.contains_key(kk) implies
                            sorted_by_key(pm3[kk]@, ops0, batches0, cp0.path_lengths@, strategy) by {
                            assert forall|jj: int| 0 <= jj < pm3[kk]@.len() implies #[trigger] pm3[kk]@[jj] < ops0.len() by {
                                assert(loc.contains_key(pm3[kk]@[jj]));
                            }
                            lemma_sorted_same(ops0, self.operations@, batches0, cp0.path_lengths@, strategy, pm3[kk]@,
                                groups0.len() as int);
                        }
                    }
                    assert(keys_within(pm3, current_time as int, h + spent)) by {
                        assert forall|kk: u32| #[trigger] pm3.contains_key(kk) implies current_time <= kk <= h + spent by {
                            assert(pm2.contains_key(kk));
                            if pm_mid.contains_key(kk) {
                            }
                        }
                    }
                    if !any_scheduled {
                        assert(done.len() == 0);
                        assert(pm2 == pm_mid);
                    }
                }
                if !any_scheduled {
                    break;
                }
            }
            if unscheduled_operations_count == 0 {
                break;
            }
            let ghost ops = self.operations@;
            let ghost spent = sum_dur(ops0, placed_flags(ops), n as int);
            let ghost pm = self.pending_operation_ids@;
            let ghost mut v: usize = 0;
            proof {
                // some operation is not placed yet while all its predecessors are; it is queued later
                lemma_count_true_bounds(placed_flags(ops), n as int);
                lemma_sum_dur_le_total(ops0, placed_flags(ops), n as int);
                assert(exists|u: int| 0 <= u < n && !placed_flags(ops)[u]) by {
                    if forall|u: int| 0 <= u < n ==> placed_flags(ops)[u] {
                        lemma_count_true_full(placed_flags(ops), n as int);
                    }
                }
                v = lemma_minimal_not_done(ops0, placed_flags(ops));
                assert(ready(ops, v as int)) by {
                    assert forall|q: int| 0 <= q < preds(ops, v as int).len()
                        implies (#[trigger] ops[preds(ops, v as int)[q] as int]).scheduled_span is Some by {
                        let p = preds(ops, v as int)[q];
                        assert(p < n);
                        assert(preds(ops0, v as int).contains(p));
                        lemma_mirror(ops0, batches0.len() as int, groups0.len() as int, p, v);
                        assert(succs(ops0, p as int).contains(v));
                        assert(placed_flags(ops)[p as int]);
                    }
                }
                assert(loc.contains_key(v));
                assert(pm.contains_key(loc[v]));
                assert(loc[v] > current_time);
            }
            let next_event_time: Time = match self.find_next_event_time(current_time) {
                Some(t) => t,
                None => {
                    proof {
                        assert(pm.contains_key(loc[v]));
                    }
                    return Err(ScheduleError::NoFutureEventTimes);
                },
            };
            if next_event_time == current_time {
                return Err(ScheduleError::NoNextEventTime {
                    current_time: current_time,
                    unscheduled_operations_count: unscheduled_operations_count,
                });
            }
            let empty_now: bool = match self.pending_operation_ids.get(&current_time) {
                Some(q) => q.len() == 0,
                None => false,
            };
            if empty_now {
                self.pending_operation_ids.remove(&current_time);
            }
            proof {
                assert(self.pending_operation_ids@ == pm);
                let t1 = next_event_time;
                assert(t1 <= h + spent) by {
                    if !pm.contains_key(t1) {
                        let gg = choose|gg: int| 0 <= gg < self.resource_groups@.len()
                            && #[trigger] self.resource_groups@[gg].next_available_time == t1;
                        assert(self.resource_groups@[gg].next_available_time <= h + spent);
                    }
                }
                assert(queued_ok(ops, batches0, loc, t1 as int, h + spent)) by {
                    assert forall|y: usize| #[trigger] loc.contains_key(y) implies t1 <= loc[y] by {
                        assert(pm.contains_key(loc[y]));
                    }
                }
                assert(keys_within(pm, t1 as int, h + spent));
            }
            current_time = next_event_time;
        }
        proof {
            let ops = self.operations@;
            lemma_count_true_all(placed_flags(ops), n as int);
            lemma_sum_dur_le_total(ops0, placed_flags(ops), n as int);
            crate::placement::lemma_execute_time_within(ops, n as int, h + sum_dur(ops0, placed_flags(ops), n as int));
            assert(run_placed_all(ops0, ops, batches0, self.resource_groups@)) by {
                assert forall|i: int| 0 <= i < ops.len() implies (#[trigger] ops[i]).scheduled_span is Some by {
                    assert(placed_flags(ops)[i]);
                }
                assert forall|i: int, j: int| 0 <= i < ops.len() && 0 <= j < ops.len() && i != j
                    && (#[trigger] ops0[i]).scheduled_span is None && (#[trigger] ops0[j]).scheduled_span is None
                    implies disjoint_on_resources(ops, i, j) by {
                    assert(placed_flags(ops)[i] && placed_flags(ops)[j]);
                }
                assert forall|i: int| 0 <= i < ops.len() && (#[trigger] ops0[i]).scheduled_span is None
                    implies placement_ok(ops, batches0, self.resource_groups@, i) by {
                    assert(placed_flags(ops)[i]);
                }
            }
            assert(groups_staffed(ops0, groups0)) by {
                assert forall|i: int| 0 <= i < ops0.len() && (#[trigger] ops0[i]).scheduled_span is None
                    implies groups0[ops0[i].assigned_resource_group_id as int].resources@.len() > 0 by {
                    assert(placed_flags(ops)[i]);
                    assert(placement_ok(ops, batches0, self.resource_groups@, i));
                    assert(ops[i].assigned_resource_group_id == ops0[i].assigned_resource_group_id);
                }
            }
            crate::serial::lemma_run_meets_critical_path(ops0, ops, batches0, self.resource_groups@, self.critical_path_data->0);
            assert(parallel_order(ops0, ops, groups0, self.resource_groups@, order));
            assert(takes_unplaced(ops0, order)) by {
                assert forall|i: int| 0 <= i < ops0.len() implies ((#[trigger] ops0[i]).scheduled_span is None
                    <==> order.contains(i as usize)) by {
                    assert(placed_flags(ops)[i]);
                }
            }
            assert(path_lengths_of(self.critical_path_data) == cp0.path_lengths@);
            assert(parallel_order(ops0, ops, groups0, self.resource_groups@, order)
                && (!(strategy is Random) ==> parallel_priority(ops0, ops, batches0, groups0,
                    path_lengths_of(self.critical_path_data), strategy, order))
                && starts_without_delay(ops, batches0, groups0, order));
        }
        Ok(())
    }
}

} // verus!
