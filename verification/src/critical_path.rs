use vstd::prelude::*;
use std::collections::VecDeque;
use crate::indices::OperationId;
use crate::job::Operation;
use crate::graph::{graph_wf, has_topological_order, in_edges, is_topological_order, lemma_in_edges_bound, lemma_in_edges_mark, lemma_in_edges_zero, lemma_minimal_not_done, lemma_occ_take, lemma_pigeonhole, occ, succs, succs_in_range};
use crate::schedule::{none_done, CriticalPathData, Schedule, ScheduleError};
use crate::job::Batch;
use crate::time::Time;
use crate::placement::{execute_time_of, same_problem};
use crate::graph::{lemma_mirror, lemma_positions, position, preds};
use crate::strategy::rank_lt;
use crate::sums::{lemma_max_over_is_max, lemma_min_or_is_min, lemma_seq_max_is_max, lemma_max_batch_start, lemma_max_over_bound, lemma_max_over_frame, lemma_max_over_take, lemma_min_or_frame, lemma_min_or_take, lemma_seq_max_take, lemma_sum_dur_le_total, lemma_sum_dur_set, max_batch_start, max_over, min_or, sat_sub, seq_max, sum_dur, total_duration};

verus! {

/// Start time of the batch of operation `v`.
pub open spec fn batch_start_of(ops: Seq<Operation>, batches: Seq<Batch>, v: int) -> int {
    batches[ops[v].assigned_batch_id as int].start_time as int
}

/// Earliest start: the batch start or the latest earliest finish of a
/// predecessor, whichever is later; earliest finish adds the duration.
pub open spec fn forward_ok(ops: Seq<Operation>, batches: Seq<Batch>, es: Seq<Time>, ef: Seq<Time>, v: int) -> bool {
    let m = max_over(ef, preds(ops, v));
    &&& es[v] == if batch_start_of(ops, batches, v) >= m { batch_start_of(ops, batches, v) } else { m }
    &&& ef[v] == es[v] + ops[v].duration
}

/// Latest finish: the earliest latest start of a successor, or the project
/// end without successors; latest start subtracts the duration (not below 0).
pub open spec fn backward_ok(ops: Seq<Operation>, ls: Seq<Time>, lf: Seq<Time>, project_end: int, v: int) -> bool {
    &&& lf[v] == min_or(ls, succs(ops, v), project_end)
    &&& ls[v] == sat_sub(lf[v] as int, ops[v].duration as int)
}

/// Path length: own duration plus the longest path length of a successor.
pub open spec fn path_ok(ops: Seq<Operation>, pl: Seq<Time>, v: int) -> bool {
    pl[v] == ops[v].duration + max_over(pl, succs(ops, v))
}

/// The critical path data solves the forward and backward pass equations.
pub open spec fn critical_path_consistent(ops: Seq<Operation>, batches: Seq<Batch>, cp: CriticalPathData) -> bool {
    let n = ops.len();
    let es = cp.earliest_start@;
    let ef = cp.earliest_finish@;
    let ls = cp.latest_start@;
    let lf = cp.latest_finish@;
    &&& es.len() == n && ef.len() == n && ls.len() == n && lf.len() == n
    &&& cp.float@.len() == n && cp.path_lengths@.len() == n
    &&& forall|v: int| 0 <= v < n ==> #[trigger] forward_ok(ops, batches, es, ef, v)
    &&& forall|v: int| 0 <= v < n ==> #[trigger] backward_ok(ops, ls, lf, seq_max(ef), v)
    &&& forall|i: int| 0 <= i < n ==> #[trigger] cp.float@[i] == sat_sub(ls[i] as int, es[i] as int)
    &&& forall|v: int| 0 <= v < n ==> #[trigger] path_ok(ops, cp.path_lengths@, v)
}

/// What critical path data that solves the pass equations says of each
/// operation `v`, read off the problem alone:
/// - it starts no earlier than its batch and than any predecessor finishes,
///   and at one of these times; it finishes its duration later;
/// - it must finish by the latest start of every successor, and finishes
///   exactly at the earliest of them, or, without successors, at the
///   project end (the latest earliest finish of any operation);
/// - its latest start is its latest finish less its duration (not below 0),
///   and its float is its latest start less its earliest start (not below 0);
/// - its path length is its duration plus the longest path length of a
///   successor (just its duration without successors).
pub proof fn law_critical_path_meaning(ops: Seq<Operation>, batches: Seq<Batch>, cp: CriticalPathData)
    requires
        critical_path_consistent(ops, batches, cp),
    ensures
        forall|v: int| 0 <= v < ops.len() ==> {
            &&& #[trigger] cp.earliest_start@[v] >= batches[ops[v].assigned_batch_id as int].start_time
            &&& cp.earliest_finish@[v] == cp.earliest_start@[v] + ops[v].duration
            &&& (cp.earliest_start@[v] == batches[ops[v].assigned_batch_id as int].start_time
                || exists|q: int| 0 <= q < preds(ops, v).len()
                    && cp.earliest_start@[v] == cp.earliest_finish@[#[trigger] preds(ops, v)[q] as int])
        },
        forall|v: int, q: int| 0 <= v < ops.len() && 0 <= q < preds(ops, v).len()
            ==> cp.earliest_start@[v] >= cp.earliest_finish@[#[trigger] preds(ops, v)[q] as int],
        forall|v: int, k: int| 0 <= v < ops.len() && 0 <= k < succs(ops, v).len()
            ==> cp.latest_finish@[v] <= cp.latest_start@[#[trigger] succs(ops, v)[k] as int],
        forall|v: int| 0 <= v < ops.len() && succs(ops, v).len() > 0
            ==> exists|k: int| 0 <= k < succs(ops, v).len()
                && cp.latest_finish@[v] == cp.latest_start@[#[trigger] succs(ops, v)[k] as int],
        forall|v: int, u: int| 0 <= v < ops.len() && 0 <= u < ops.len() && succs(ops, v).len() == 0
            ==> #[trigger] cp.earliest_finish@[u] <= #[trigger] cp.latest_finish@[v],
        forall|v: int| 0 <= v < ops.len() && succs(ops, v).len() == 0
            ==> exists|u: int| 0 <= u < ops.len() && #[trigger] cp.latest_finish@[v] == #[trigger] cp.earliest_finish@[u],
        forall|v: int| 0 <= v < ops.len() ==> #[trigger] cp.latest_start@[v] == if cp.latest_finish@[v] >= ops[v].duration {
            cp.latest_finish@[v] - ops[v].duration
        } else {
            0
        },
        forall|v: int| 0 <= v < ops.len() ==> #[trigger] cp.float@[v] == if cp.latest_start@[v] >= cp.earliest_start@[v] {
            cp.latest_start@[v] - cp.earliest_start@[v]
        } else {
            0
        },
        forall|v: int, k: int| 0 <= v < ops.len() && 0 <= k < succs(ops, v).len()
            ==> cp.path_lengths@[v] >= ops[v].duration + cp.path_lengths@[#[trigger] succs(ops, v)[k] as int],
        forall|v: int| 0 <= v < ops.len() && succs(ops, v).len() == 0 ==> #[trigger] cp.path_lengths@[v] == ops[v].duration,
        forall|v: int| 0 <= v < ops.len() && succs(ops, v).len() > 0
            ==> exists|k: int| 0 <= k < succs(ops, v).len()
                && cp.path_lengths@[v] == ops[v].duration + cp.path_lengths@[#[trigger] succs(ops, v)[k] as int],
{
    let es = cp.earliest_start@;
    let ef = cp.earliest_finish@;
    let ls = cp.latest_start@;
    let lf = cp.latest_finish@;
    let pl = cp.path_lengths@;
    lemma_seq_max_is_max(ef);
    assert forall|v: int| 0 <= v < ops.len() implies {
        &&& #[trigger] es[v] >= batches[ops[v].assigned_batch_id as int].start_time
        &&& ef[v] == es[v] + ops[v].duration
        &&& (es[v] == batches[ops[v].assigned_batch_id as int].start_time
            || exists|q: int| 0 <= q < preds(ops, v).len() && es[v] == ef[#[trigger] preds(ops, v)[q] as int])
        &&& forall|q: int| 0 <= q < preds(ops, v).len() ==> es[v] >= ef[#[trigger] preds(ops, v)[q] as int]
        &&& forall|k: int| 0 <= k < succs(ops, v).len() ==> lf[v] <= ls[#[trigger] succs(ops, v)[k] as int]
        &&& succs(ops, v).len() > 0 ==> exists|k: int| 0 <= k < succs(ops, v).len() && lf[v] == ls[#[trigger] succs(ops, v)[k] as int]
        &&& succs(ops, v).len() == 0 ==> lf[v] == seq_max(ef)
        &&& forall|k: int| 0 <= k < succs(ops, v).len() ==> pl[v] >= ops[v].duration + pl[#[trigger] succs(ops, v)[k] as int]
        &&& succs(ops, v).len() == 0 ==> pl[v] == ops[v].duration
        &&& succs(ops, v).len() > 0 ==> exists|k: int| 0 <= k < succs(ops, v).len()
            && pl[v] == ops[v].duration + pl[#[trigger] succs(ops, v)[k] as int]
    } by {
        assert(forward_ok(ops, batches, es, ef, v));
        assert(backward_ok(ops, ls, lf, seq_max(ef), v));
        assert(path_ok(ops, pl, v));
        lemma_max_over_is_max(ef, preds(ops, v));
        lemma_min_or_is_min(ls, succs(ops, v), seq_max(ef));
        lemma_max_over_is_max(pl, succs(ops, v));
        if preds(ops, v).len() == 0 {
            assert(max_over(ef, preds(ops, v)) == 0);
        }
    }
    assert forall|v: int, q: int| 0 <= v < ops.len() && 0 <= q < preds(ops, v).len()
        implies es[v] >= ef[#[trigger] preds(ops, v)[q] as int] by {
        assert(es[v] >= batches[ops[v].assigned_batch_id as int].start_time);
    }
    assert forall|v: int, k: int| 0 <= v < ops.len() && 0 <= k < succs(ops, v).len()
        implies lf[v] <= ls[#[trigger] succs(ops, v)[k] as int] by {
        assert(es[v] >= batches[ops[v].assigned_batch_id as int].start_time);
    }
    assert forall|v: int| 0 <= v < ops.len() && succs(ops, v).len() > 0
        implies exists|k: int| 0 <= k < succs(ops, v).len() && lf[v] == ls[#[trigger] succs(ops, v)[k] as int] by {
        assert(es[v] >= batches[ops[v].assigned_batch_id as int].start_time);
        let k = choose|k: int| 0 <= k < succs(ops, v).len() && lf[v] == ls[#[trigger] succs(ops, v)[k] as int];
    }
    assert forall|v: int, u: int| 0 <= v < ops.len() && 0 <= u < ops.len() && succs(ops, v).len() == 0
        implies #[trigger] ef[u] <= #[trigger] lf[v] by {
        assert(es[v] >= batches[ops[v].assigned_batch_id as int].start_time);
    }
    assert forall|v: int| 0 <= v < ops.len() && succs(ops, v).len() == 0
        implies exists|u: int| 0 <= u < ops.len() && #[trigger] lf[v] == #[trigger] ef[u] by {
        assert(es[v] >= batches[ops[v].assigned_batch_id as int].start_time);
        let u = choose|i: int| 0 <= i < ef.len() && seq_max(ef) == #[trigger] ef[i];
        assert(lf[v] == ef[u]);
    }
    assert forall|v: int| 0 <= v < ops.len() implies #[trigger] ls[v] == if lf[v] >= ops[v].duration {
        lf[v] - ops[v].duration
    } else {
        0
    } by {
        assert(backward_ok(ops, ls, lf, seq_max(ef), v));
    }
    assert forall|v: int, k: int| 0 <= v < ops.len() && 0 <= k < succs(ops, v).len()
        implies pl[v] >= ops[v].duration + pl[#[trigger] succs(ops, v)[k] as int] by {
        assert(es[v] >= batches[ops[v].assigned_batch_id as int].start_time);
    }
    assert forall|v: int| 0 <= v < ops.len() && succs(ops, v).len() == 0 implies #[trigger] pl[v] == ops[v].duration by {
        assert(es[v] >= batches[ops[v].assigned_batch_id as int].start_time);
    }
    assert forall|v: int| 0 <= v < ops.len() && succs(ops, v).len() > 0
        implies exists|k: int| 0 <= k < succs(ops, v).len()
            && pl[v] == ops[v].duration + pl[#[trigger] succs(ops, v)[k] as int] by {
        assert(es[v] >= batches[ops[v].assigned_batch_id as int].start_time);
        let k = choose|k: int| 0 <= k < succs(ops, v).len() && pl[v] == ops[v].duration + pl[#[trigger] succs(ops, v)[k] as int];
    }
}

/// Operations placed before position `k` of `order`.
pub open spec fn placed_before(order: Seq<usize>, n: nat, k: int) -> Seq<bool> {
    Seq::new(n, |u: int| position(order, u as usize) < k)
}

/// Operations placed at or after position `k` of `order`.
pub open spec fn placed_from(order: Seq<usize>, n: nat, k: int) -> Seq<bool> {
    Seq::new(n, |u: int| position(order, u as usize) >= k)
}

fn filled(n: usize, value: Time) -> (v: Vec<Time>)
    ensures
        v@.len() == n,
        forall|i: int| 0 <= i < n ==> #[trigger] v@[i] == value,
{
    let mut v: Vec<Time> = Vec::new();
    let mut i: usize = 0;
    while i < n
        invariant
            0 <= i <= n,
            v@.len() == i,
            forall|k: int| 0 <= k < i ==> #[trigger] v@[k] == value,
        decreases n - i,
    {
        v.push(value);
        i = i + 1;
    }
    v
}

/// `in_edges` only grows with the number of operations counted.
proof fn lemma_in_edges_monotone(ops: Seq<Operation>, v: usize, done: Seq<bool>, k: int, m: int)
    requires
        0 <= k <= m,
    ensures
        in_edges(ops, v, done, k) <= in_edges(ops, v, done, m),
    decreases m - k,
{
    if k < m {
        lemma_in_edges_monotone(ops, v, done, k, m - 1);
    }
}

/// The last position in `s` holding `x` (-1 when there is none).
pub open spec fn last_pos(s: Seq<usize>, x: usize) -> int
    decreases s.len(),
{
    if s.len() == 0 {
        -1
    } else if s.last() == x {
        s.len() - 1
    } else {
        last_pos(s.drop_last(), x)
    }
}

/// The last position in `order` of an operation that lists `v` among its
/// successors (-1 when there is none).
pub open spec fn feeder(ops: Seq<Operation>, order: Seq<usize>, v: usize) -> int
    decreases order.len(),
{
    if order.len() == 0 {
        -1
    } else if succs(ops, order.last() as int).contains(v) {
        order.len() - 1
    } else {
        feeder(ops, order.drop_last(), v)
    }
}

/// When Kahn's queue hands out `v` along `order`: the operations without
/// predecessors first, by id; then the others by the position in `order`
/// of the predecessor whose removal left them free, and by where they
/// last stand among that predecessor's successors.
pub open spec fn kahn_rank(ops: Seq<Operation>, order: Seq<usize>, v: usize) -> (int, int) {
    let f = feeder(ops, order, v);
    if f < 0 {
        (0, v as int)
    } else {
        (f + 1, last_pos(succs(ops, order[f] as int), v))
    }
}

/// `order` is the order in which Kahn's first-in first-out queue hands out
/// the operations.
pub open spec fn kahn_ordered(ops: Seq<Operation>, order: Seq<usize>) -> bool {
    forall|a: int, b: int| 0 <= a < b < order.len()
        ==> rank_lt(kahn_rank(ops, order, #[trigger] order[a]), kahn_rank(ops, order, #[trigger] order[b]))
}

proof fn lemma_feeder_bounds(ops: Seq<Operation>, order: Seq<usize>, v: usize)
    ensures
        -1 <= feeder(ops, order, v) < order.len(),
        feeder(ops, order, v) >= 0 ==> succs(ops, order[feeder(ops, order, v)] as int).contains(v),
    decreases order.len(),
{
    if order.len() > 0 && !succs(ops, order.last() as int).contains(v) {
        lemma_feeder_bounds(ops, order.drop_last(), v);
        let f = feeder(ops, order.drop_last(), v);
        if f >= 0 {
            assert(order[f] == order.drop_last()[f]);
        }
    }
}

/// Appending an operation that does not list `v` among its successors
/// leaves the rank of `v` as it is.
proof fn lemma_kahn_rank_push_other(ops: Seq<Operation>, order: Seq<usize>, w: usize, v: usize)
    requires
        !succs(ops, w as int).contains(v),
    ensures
        kahn_rank(ops, order.push(w), v) == kahn_rank(ops, order, v),
{
    assert(order.push(w).drop_last() =~= order);
    assert(order.push(w).last() == w);
    lemma_feeder_bounds(ops, order, v);
    let f = feeder(ops, order, v);
    if f >= 0 {
        assert(order.push(w)[f] == order[f]);
    }
}

/// Appending an operation that lists `v` among its successors gives `v`
/// that operation's position as its rank.
proof fn lemma_kahn_rank_push_feeder(ops: Seq<Operation>, order: Seq<usize>, w: usize, v: usize)
    requires
        succs(ops, w as int).contains(v),
    ensures
        kahn_rank(ops, order.push(w), v) == ((order.len() + 1) as int, last_pos(succs(ops, w as int), v)),
{
    assert(order.push(w).last() == w);
    assert(order.push(w)[order.len() as int] == w);
}

/// Where the occurrences of `x` up to `j` are all of them and `s[j]` is
/// `x`, `j` is its last position.
proof fn lemma_last_pos(s: Seq<usize>, x: usize, j: int)
    requires
        0 <= j < s.len(),
        s[j] == x,
        occ(s.take(j + 1), x) == occ(s, x),
    ensures
        last_pos(s, x) == j,
    decreases s.len(),
{
    let d = s.drop_last();
    if j < s.len() - 1 {
        lemma_occ_take(d, x, j);
        assert(d.take(j + 1) =~= s.take(j + 1));
        if s.last() == x {
            assert(occ(s, x) == occ(d, x) + 1);
            assert(false);
        }
        assert(occ(s, x) == occ(d, x));
        assert(d[j] == x);
        lemma_last_pos(d, x, j);
    }
}

impl Schedule {
    /// Kahn's algorithm: a topological order of the operations, or an error
    /// when the precedence graph has a cycle.
    fn topological_order(&self) -> (r: Result<Vec<OperationId>, ScheduleError>)
        requires
            forall|i: int| 0 <= i < self.operations@.len() ==> #[trigger] succs_in_range(self.operations@, i),
            self.in_degrees_fit(),
        ensures
            match r {
                Ok(order) => is_topological_order(self.operations@, order@) && kahn_ordered(self.operations@, order@),
                Err(e) => e is CycleDetected && !has_topological_order(self.operations@),
            },
    {
        let ghost ops = self.operations@;
        let n = self.operations.len();
        let ghost none = none_done(n as nat);

        let mut in_degree: Vec<usize> = Vec::new();
        let mut i: usize = 0;
        while i < n
            invariant
                0 <= i <= n,
                in_degree@.len() == i,
                forall|v: int| 0 <= v < i ==> #[trigger] in_degree@[v] == 0,
            decreases n - i,
        {
            in_degree.push(0);
            i = i + 1;
        }

        let mut u: usize = 0;
        while u < n
            invariant
                ops == self.operations@,
                n == ops.len(),
                forall|i: int| 0 <= i < ops.len() ==> #[trigger] succs_in_range(ops, i),
                self.in_degrees_fit(),
                none == none_done(n as nat),
                0 <= u <= n,
                in_degree@.len() == n,
                forall|v: int| 0 <= v < n ==> #[trigger] in_degree@[v] == in_edges(ops, v as usize, none, u as int),
            decreases n - u,
        {
            let m = self.operations[u].successor_ids.len();
            let mut j: usize = 0;
            while j < m
                invariant
                    ops == self.operations@,
                    n == ops.len(),
                    forall|i: int| 0 <= i < ops.len() ==> #[trigger] succs_in_range(ops, i),
                    self.in_degrees_fit(),
                    none == none_done(n as nat),
                    0 <= u < n,
                    m == succs(ops, u as int).len(),
                    0 <= j <= m,
                    in_degree@.len() == n,
                    forall|v: int| 0 <= v < n ==> #[trigger] in_degree@[v]
                        == in_edges(ops, v as usize, none, u as int) + occ(succs(ops, u as int).take(j as int), v as usize),
                decreases m - j,
            {
                let s = self.operations[u].successor_ids[j];
                proof {
                    assert(succs_in_range(ops, u as int));
                    assert(succs(ops, u as int)[j as int] == s);
                    assert forall|v: int| 0 <= v < n implies #[trigger] occ(succs(ops, u as int).take(j + 1), v as usize)
                        == occ(succs(ops, u as int).take(j as int), v as usize) + if succs(ops, u as int)[j as int] == v as usize { 1nat } else { 0nat } by {
                        lemma_occ_take(succs(ops, u as int), v as usize, j as int);
                    }
                    lemma_occ_take(succs(ops, u as int), s, j as int);
                    lemma_in_edges_monotone(ops, s, none, u + 1, n as int);
                    assert(in_edges(ops, s, none, u + 1) == in_edges(ops, s, none, u as int) + occ(succs(ops, u as int), s));
                    assert(in_edges(ops, s, none, n as int) <= usize::MAX);
                }
                in_degree.set(s, in_degree[s] + 1);
                j = j + 1;
            }
            proof {
                assert(succs(ops, u as int).take(m as int) =~= succs(ops, u as int));
            }
            u = u + 1;
        }

        let mut queue: VecDeque<usize> = VecDeque::new();
        let mut v: usize = 0;
        while v < n
            invariant
                n == ops.len(),
                in_degree@.len() == n,
                0 <= v <= n,
                forall|k: int| 0 <= k < queue@.len() ==> #[trigger] queue@[k] < v && in_degree@[queue@[k] as int] == 0,
                forall|a: int, b: int| 0 <= a < b < queue@.len() ==> queue@[a] < queue@[b],
                forall|w: int| 0 <= w < v && #[trigger] in_degree@[w] == 0 ==> queue@.contains(w as usize),
            decreases n - v,
        {
            if in_degree[v] == 0 {
                let ghost q0 = queue@;
                queue.push_back(v);
                proof {
                    assert(queue@[queue@.len() - 1] == v);
                    assert forall|w: int| 0 <= w < v + 1 && #[trigger] in_degree@[w] == 0 implies queue@.contains(w as usize) by {
                        crate::graph::lemma_push_contains(q0, v, w as usize);
                    }
                }
            }
            v = v + 1;
        }

        let mut order: Vec<usize> = Vec::new();
        let ghost mut done: Seq<bool> = none;
        proof {
            assert(order@ + queue@ =~= queue@);
            assert forall|a: int, b: int| 0 <= a < b < (order@ + queue@).len()
                implies rank_lt(kahn_rank(ops, order@, #[trigger] (order@ + queue@)[a]),
                    kahn_rank(ops, order@, #[trigger] (order@ + queue@)[b])) by {
                assert(queue@[a] < queue@[b]);
            }
        }
        loop
            invariant
                ops == self.operations@,
                n == ops.len(),
                forall|i: int| 0 <= i < ops.len() ==> #[trigger] succs_in_range(ops, i),
                done.len() == n,
                in_degree@.len() == n,
                order@.no_duplicates(),
                forall|k: int| 0 <= k < order@.len() ==> #[trigger] order@[k] < n,
                forall|w: int| 0 <= w < n ==> (done[w] <==> #[trigger] order@.contains(w as usize)),
                forall|w: int| 0 <= w < n ==> #[trigger] in_degree@[w] == in_edges(ops, w as usize, done, n as int),
                forall|w: int| 0 <= w < n && #[trigger] done[w] ==> in_degree@[w] == 0,
                queue@.no_duplicates(),
                forall|k: int| 0 <= k < queue@.len() ==> #[trigger] queue@[k] < n
                    && !done[queue@[k] as int] && in_degree@[queue@[k] as int] == 0,
                forall|w: int| 0 <= w < n && !done[w] && #[trigger] in_degree@[w] == 0 ==> queue@.contains(w as usize),
                forall|k: int, x: int| 0 <= k < order@.len() && 0 <= x < n
                    && #[trigger] succs(ops, x).contains(#[trigger] order@[k])
                    ==> exists|k2: int| 0 <= k2 < k && order@[k2] == x as usize,
                forall|a: int, b: int| 0 <= a < b < (order@ + queue@).len()
                    ==> rank_lt(kahn_rank(ops, order@, #[trigger] (order@ + queue@)[a]),
                        kahn_rank(ops, order@, #[trigger] (order@ + queue@)[b])),
            ensures
                queue@.len() == 0,
            decreases n - order@.len(),
        {
            proof {
                lemma_pigeonhole(order@, n as nat);
            }
            let ghost qpre = queue@;
            match queue.pop_front() {
                None => {
                    break;
                },
                Some(id) => {
                    let ghost q0 = queue@;
                    let ghost order0 = order@;
                    proof {
                        assert(id == qpre[0]);
                        assert forall|k: int| 0 <= k < q0.len() implies #[trigger] q0[k] != id by {
                            assert(q0[k] == qpre[k + 1]);
                        }
                        assert forall|w: int| 0 <= w < n && !done[w] && w != id && #[trigger] in_degree@[w] == 0
                            implies q0.contains(w as usize) by {
                            assert(qpre.contains(w as usize));
                            let k = choose|k: int| 0 <= k < qpre.len() && qpre[k] == w as usize;
                            assert(q0[k - 1] == w as usize);
                        }
                        lemma_in_edges_zero(ops, id, done, n as int);
                        assert(!order0.contains(id));
                    }
                    order.push(id);
                    proof {
                        assert(order@ == order0.push(id));
                        assert forall|a: int, b: int| 0 <= a < order@.len() && 0 <= b < order@.len() && a != b
                            implies order@[a] != order@[b] by {
                            if a < order0.len() && b < order0.len() {
                            } else if a == order0.len() {
                                assert(order0[b] == order@[b]);
                            } else {
                                assert(order0[a] == order@[a]);
                            }
                        }
                        assert forall|k: int, x: int| 0 <= k < order@.len() && 0 <= x < n
                            && #[trigger] succs(ops, x).contains(#[trigger] order@[k])
                            implies exists|k2: int| 0 <= k2 < k && order@[k2] == x as usize by {
                            if k < order0.len() {
                                assert(order@[k] == order0[k]);
                                let k2 = choose|k2: int| 0 <= k2 < k && order0[k2] == x as usize;
                                assert(order@[k2] == x as usize);
                            } else {
                                assert(done[x]);
                                assert(order0.contains(x as usize));
                                let k2 = choose|k2: int| 0 <= k2 < order0.len() && order0[k2] == x as usize;
                                assert(order@[k2] == x as usize);
                            }
                        }
                    }
                    proof {
                        let oq = order@ + queue@;
                        assert(oq =~= order0 + qpre);
                        assert forall|k: int| 0 <= k < oq.len() implies kahn_rank(ops, order@, #[trigger] oq[k])
                            == kahn_rank(ops, order0, oq[k]) && rank_lt(kahn_rank(ops, order@, oq[k]), (order@.len() as int, 0int)) by {
                            let v = oq[k];
                            assert(v < n && in_degree@[v as int] == 0) by {
                                if k < order0.len() {
                                    assert(order0[k] == v);
                                    let vi = v as int;
                                    assert(order0.contains(vi as usize));
                                    assert(done[vi]);
                                } else {
                                    assert(qpre[k - order0.len()] == v);
                                }
                            }
                            lemma_in_edges_zero(ops, v, done, n as int);
                            assert(!succs(ops, id as int).contains(v));
                            lemma_kahn_rank_push_other(ops, order0, id, v);
                            lemma_feeder_bounds(ops, order0, v);
                        }
                        assert forall|a: int, b: int| 0 <= a < b < oq.len()
                            implies rank_lt(kahn_rank(ops, order@, #[trigger] oq[a]), kahn_rank(ops, order@, #[trigger] oq[b])) by {
                            assert(oq[a] == (order0 + qpre)[a] && oq[b] == (order0 + qpre)[b]);
                            assert(rank_lt(kahn_rank(ops, order0, (order0 + qpre)[a]), kahn_rank(ops, order0, (order0 + qpre)[b])));
                        }
                    }
                    let m = self.operations[id].successor_ids.len();
                    let mut j: usize = 0;
                    while j < m
                        invariant
                            ops == self.operations@,
                            n == ops.len(),
                            forall|i: int| 0 <= i < ops.len() ==> #[trigger] succs_in_range(ops, i),
                            done.len() == n,
                            in_degree@.len() == n,
                            id < n,
                            !done[id as int],
                            m == succs(ops, id as int).len(),
                            0 <= j <= m,
                            forall|w: int| 0 <= w < n ==> #[trigger] in_degree@[w]
                                == in_edges(ops, w as usize, done, n as int) - occ(succs(ops, id as int).take(j as int), w as usize),
                            forall|w: int| 0 <= w < n && #[trigger] done[w] ==> in_degree@[w] == 0,
                            in_degree@[id as int] == 0,
                            queue@.no_duplicates(),
                            forall|k: int| 0 <= k < queue@.len() ==> #[trigger] queue@[k] < n && queue@[k] != id
                                && !done[queue@[k] as int] && in_degree@[queue@[k] as int] == 0,
                            forall|w: int| 0 <= w < n && !done[w] && w != id && #[trigger] in_degree@[w] == 0
                                ==> queue@.contains(w as usize),
                            order@ == order0.push(id),
                            forall|a: int, b: int| 0 <= a < b < (order@ + queue@).len()
                                ==> rank_lt(kahn_rank(ops, order@, #[trigger] (order@ + queue@)[a]),
                                    kahn_rank(ops, order@, #[trigger] (order@ + queue@)[b])),
                            forall|a: int| 0 <= a < (order@ + queue@).len()
                                ==> rank_lt(kahn_rank(ops, order@, #[trigger] (order@ + queue@)[a]), (order@.len() as int, j as int)),
                        decreases m - j,
                    {
                        let s = self.operations[id].successor_ids[j];
                        let ghost q1 = queue@;
                        proof {
                            assert(succs_in_range(ops, id as int));
                            assert(succs(ops, id as int)[j as int] == s);
                            assert forall|w: int| 0 <= w < n implies #[trigger] occ(succs(ops, id as int).take(j + 1), w as usize)
                                == occ(succs(ops, id as int).take(j as int), w as usize)
                                    + if succs(ops, id as int)[j as int] == w as usize { 1nat } else { 0nat } by {
                                lemma_occ_take(succs(ops, id as int), w as usize, j as int);
                            }
                            lemma_occ_take(succs(ops, id as int), s, j as int);
                            lemma_in_edges_bound(ops, s, done, n as int, id as int);
                            assert(in_degree@[s as int] >= 1);
                        }
                        let d = in_degree[s] - 1;
                        in_degree.set(s, d);
                        if d == 0 {
                            let ghost oq1 = order@ + queue@;
                            queue.push_back(s);
                            proof {
                                lemma_occ_take(succs(ops, id as int), s, j as int);
                                lemma_last_pos(succs(ops, id as int), s, j as int);
                                assert(succs(ops, id as int).contains(s));
                                lemma_kahn_rank_push_feeder(ops, order0, id, s);
                                assert(kahn_rank(ops, order@, s) == (order@.len() as int, j as int));
                                let oq = order@ + queue@;
                                assert(oq =~= oq1.push(s));
                                assert forall|a: int, b: int| 0 <= a < b < oq.len()
                                    implies rank_lt(kahn_rank(ops, order@, #[trigger] oq[a]), kahn_rank(ops, order@, #[trigger] oq[b])) by {
                                    if b == oq1.len() {
                                        assert(oq[a] == oq1[a]);
                                    } else {
                                        assert(oq[a] == oq1[a] && oq[b] == oq1[b]);
                                    }
                                }
                                assert forall|a: int| 0 <= a < oq.len()
                                    implies rank_lt(kahn_rank(ops, order@, #[trigger] oq[a]), (order@.len() as int, j + 1)) by {
                                    if a < oq1.len() {
                                        assert(oq[a] == oq1[a]);
                                    }
                                }
                                assert(!q1.contains(s));
                                assert forall|a: int, b: int| 0 <= a < queue@.len() && 0 <= b < queue@.len() && a != b
                                    implies queue@[a] != queue@[b] by {
                                    if a < q1.len() && b < q1.len() {
                                    } else if a == q1.len() {
                                        assert(q1[b] == queue@[b]);
                                    } else {
                                        assert(q1[a] == queue@[a]);
                                    }
                                }
                                assert forall|w: int| 0 <= w < n && !done[w] && w != id && #[trigger] in_degree@[w] == 0
                                    implies queue@.contains(w as usize) by {
                                    if w != s {
                                        assert(q1.contains(w as usize));
                                        let k = choose|k: int| 0 <= k < q1.len() && q1[k] == w as usize;
                                        assert(queue@[k] == w as usize);
                                    } else {
                                        assert(queue@[q1.len() as int] == s);
                                    }
                                }
                            }
                        }
                        j = j + 1;
                    }
                    proof {
                        assert(succs(ops, id as int).take(m as int) =~= succs(ops, id as int));
                        let new_done = done.update(id as int, true);
                        assert forall|w: int| 0 <= w < n implies #[trigger] in_degree@[w] == in_edges(ops, w as usize, new_done, n as int) by {
                            lemma_in_edges_mark(ops, w as usize, done, n as int, id as int);
                        }
                        assert forall|w: int| 0 <= w < n implies (new_done[w] <==> #[trigger] order@.contains(w as usize)) by {
                            crate::graph::lemma_push_contains(order0, id, w as usize);
                        }
                        done = new_done;
                        lemma_pigeonhole(order@, n as nat);
                    }
                },
            }
        }
        proof {
            lemma_pigeonhole(order@, n as nat);
        }
        if order.len() != n {
            proof {
                if has_topological_order(ops) {
                    if forall|w: int| 0 <= w < n ==> done[w] {
                        assert forall|w: usize| w < n implies order@.contains(w) by {
                            assert(done[w as int]);
                        }
                    }
                    let w = lemma_minimal_not_done(ops, done);
                    lemma_in_edges_zero(ops, w, done, n as int);
                    assert(in_degree@[w as int] == 0);
                    assert(queue@.contains(w));
                }
            }
            return Err(ScheduleError::CycleDetected);
        }
        proof {
            assert forall|a: int, b: int| 0 <= a < order@.len() && 0 <= b < order@.len()
                && #[trigger] succs(ops, order@[a] as int).contains(#[trigger] order@[b]) implies a < b by {
                let k2 = choose|k2: int| 0 <= k2 < b && order@[k2] == order@[a];
                assert(k2 == a);
            }
            assert(order@ + queue@ =~= order@);
            assert forall|a: int, b: int| 0 <= a < b < order@.len()
                implies rank_lt(kahn_rank(ops, order@, #[trigger] order@[a]), kahn_rank(ops, order@, #[trigger] order@[b])) by {
                assert((order@ + queue@)[a] == order@[a] && (order@ + queue@)[b] == order@[b]);
            }
        }
        Ok(order)
    }

    /// Forward and backward passes over a topological order, or an error
    /// when the precedence graph has a cycle.
    pub fn compute_critical_path_data(&self) -> (r: Result<CriticalPathData, ScheduleError>)
        requires
            self.precedence_ok(),
            self.in_degrees_fit(),
            self.durations_fit(),
        ensures
            match r {
                Ok(cp) => has_topological_order(self.operations@)
                    && critical_path_consistent(self.operations@, self.batches@, cp),
                Err(e) => e is CycleDetected && !has_topological_order(self.operations@),
            },
    {
        let ghost ops = self.operations@;
        let ghost batches = self.batches@;
        let n = self.operations.len();
        let topo_order = match self.topological_order() {
            Ok(o) => o,
            Err(e) => { return Err(e); },
        };
        let ghost order = topo_order@;
        proof {
            lemma_positions(ops, order);
            lemma_sum_dur_le_total(ops, placed_before(order, n as nat, n as int), n as int);
        }
        let ghost bmax = max_batch_start(batches);

        // forward pass
        let mut es = filled(n, 0);
        let mut ef = filled(n, 0);
        let mut k: usize = 0;
        while k < n
            invariant
                ops == self.operations@,
                batches == self.batches@,
                n == ops.len(),
                self.precedence_ok(),
                self.durations_fit(),
                bmax == max_batch_start(batches),
                is_topological_order(ops, order),
                order == topo_order@,
                forall|v: usize| v < ops.len() ==> 0 <= #[trigger] position(order, v) < ops.len() && order[position(order, v)] == v,
                forall|t: int| 0 <= t < order.len() ==> #[trigger] position(order, order[t]) == t,
                forall|u: int, v: int| 0 <= u < ops.len() && 0 <= v < ops.len() && #[trigger] succs(ops, u).contains(v as usize)
                    ==> position(order, u as usize) < position(order, v as usize),
                0 <= k <= n,
                es@.len() == n,
                ef@.len() == n,
                forall|v: int| 0 <= v < n && position(order, v as usize) < k ==> #[trigger] forward_ok(ops, batches, es@, ef@, v),
                forall|v: int| 0 <= v < n && position(order, v as usize) < k
                    ==> #[trigger] ef@[v] <= bmax + sum_dur(ops, placed_before(order, n as nat, k as int), n as int),
            decreases n - k,
        {
            let id = topo_order[k];
            let ghost ef0 = ef@;
            let ghost es0 = es@;
            let ghost before = placed_before(order, n as nat, k as int);
            let ghost after = placed_before(order, n as nat, k + 1);
            proof {
                assert(after =~= before.update(id as int, true));
                lemma_sum_dur_set(ops, before, n as int, id as int);
                lemma_sum_dur_le_total(ops, after, n as int);
                lemma_max_batch_start(batches, ops[id as int].assigned_batch_id as int);
            }
            let batch_start = self.batches[self.operations[id].assigned_batch_id].start_time;
            let np = self.operations[id].predecessor_ids.len();
            let mut m: Time = 0;
            let mut j: usize = 0;
            while j < np
                invariant
                    ops == self.operations@,
                    n == ops.len(),
                    self.precedence_ok(),
                    id < n,
                    ef@ == ef0,
                    ef@.len() == n,
                    np == preds(ops, id as int).len(),
                    0 <= j <= np,
                    m == max_over(ef@, preds(ops, id as int).take(j as int)),
                decreases np - j,
            {
                let p = self.operations[id].predecessor_ids[j];
                proof {
                    lemma_max_over_take(ef@, preds(ops, id as int), j as int);
                    assert(preds(ops, id as int)[j as int] < n);
                }
                if ef[p] > m {
                    m = ef[p];
                }
                j = j + 1;
            }
            proof {
                assert(preds(ops, id as int).take(np as int) =~= preds(ops, id as int));
                // every predecessor is placed before `id`
                assert forall|q: int| 0 <= q < np implies #[trigger] ef@[preds(ops, id as int)[q] as int]
                    <= bmax + sum_dur(ops, before, n as int) by {
                    let p = preds(ops, id as int)[q];
                    assert(preds(ops, id as int).contains(p));
                    crate::graph::lemma_mirror_of(ops, batches.len() as int, p, id);
                }
                lemma_sum_dur_le_total(ops, before, n as int);
                lemma_max_over_bound(ef@, preds(ops, id as int), bmax + sum_dur(ops, before, n as int));
            }
            let e: Time = if batch_start >= m { batch_start } else { m };
            es.set(id, e);
            ef.set(id, e + self.operations[id].duration);
            proof {
                assert forall|v: int| 0 <= v < n && position(order, v as usize) < k + 1
                    implies #[trigger] forward_ok(ops, batches, es@, ef@, v) by {
                    assert forall|q: int| 0 <= q < preds(ops, v).len() implies ef0[#[trigger] preds(ops, v)[q] as int] == ef@[preds(ops, v)[q] as int] by {
                        let p = preds(ops, v)[q];
                        assert(preds(ops, v).contains(p));
                        crate::graph::lemma_mirror_of(ops, batches.len() as int, p, v as usize);
                    }
                    lemma_max_over_frame(ef0, ef@, preds(ops, v));
                    if v != id as int {
                        assert(position(order, v as usize) < k);
                        assert(forward_ok(ops, batches, es0, ef0, v));
                    }
                }
                assert forall|v: int| 0 <= v < n && position(order, v as usize) < k + 1
                    implies #[trigger] ef@[v] <= bmax + sum_dur(ops, after, n as int) by {
                    if v != id as int {
                        assert(position(order, v as usize) < k);
                    }
                }
            }
            k = k + 1;
        }

        // project end
        let mut project_end: Time = 0;
        let mut i: usize = 0;
        while i < n
            invariant
                0 <= i <= n,
                ef@.len() == n,
                project_end == seq_max(ef@.take(i as int)),
            decreases n - i,
        {
            proof {
                lemma_seq_max_take(ef@, i as int);
            }
            if ef[i] > project_end {
                project_end = ef[i];
            }
            i = i + 1;
        }
        proof {
            assert(ef@.take(n as int) =~= ef@);
        }

        // backward pass
        let mut lf = filled(n, project_end);
        let mut ls = filled(n, project_end);
        let mut k: usize = n;
        while k > 0
            invariant
                ops == self.operations@,
                n == ops.len(),
                self.precedence_ok(),
                is_topological_order(ops, order),
                order == topo_order@,
                forall|v: usize| v < ops.len() ==> 0 <= #[trigger] position(order, v) < ops.len() && order[position(order, v)] == v,
                forall|t: int| 0 <= t < order.len() ==> #[trigger] position(order, order[t]) == t,
                forall|u: int, v: int| 0 <= u < ops.len() && 0 <= v < ops.len() && #[trigger] succs(ops, u).contains(v as usize)
                    ==> position(order, u as usize) < position(order, v as usize),
                0 <= k <= n,
                ls@.len() == n,
                lf@.len() == n,
                forall|v: int| 0 <= v < n && position(order, v as usize) >= k
                    ==> #[trigger] backward_ok(ops, ls@, lf@, project_end as int, v),
            decreases k,
        {
            k = k - 1;
            let id = topo_order[k];
            let ghost ls0 = ls@;
            let ghost lf0 = lf@;
            let ns = self.operations[id].successor_ids.len();
            let mut best: Option<Time> = None;
            let mut j: usize = 0;
            while j < ns
                invariant
                    ops == self.operations@,
                    n == ops.len(),
                    self.precedence_ok(),
                    id < n,
                    ls@ == ls0,
                    ls@.len() == n,
                    ns == succs(ops, id as int).len(),
                    0 <= j <= ns,
                    match best {
                        None => j == 0,
                        Some(b) => j > 0 && b == min_or(ls@, succs(ops, id as int).take(j as int), project_end as int),
                    },
                decreases ns - j,
            {
                let s = self.operations[id].successor_ids[j];
                proof {
                    lemma_min_or_take(ls@, succs(ops, id as int), j as int, project_end as int);
                    assert(succs(ops, id as int)[j as int] < n);
                }
                match best {
                    None => { best = Some(ls[s]); },
                    Some(b) => {
                        if ls[s] < b {
                            best = Some(ls[s]);
                        }
                    },
                }
                j = j + 1;
            }
            proof {
                assert(succs(ops, id as int).take(ns as int) =~= succs(ops, id as int));
            }
            let min_succ_ls: Time = match best {
                Some(b) => b,
                None => project_end,
            };
            lf.set(id, min_succ_ls);
            let d = self.operations[id].duration;
            ls.set(id, if min_succ_ls >= d { min_succ_ls - d } else { 0 });
            proof {
                assert forall|v: int| 0 <= v < n && position(order, v as usize) >= k
                    implies #[trigger] backward_ok(ops, ls@, lf@, project_end as int, v) by {
                    assert forall|q: int| 0 <= q < succs(ops, v).len() implies ls0[#[trigger] succs(ops, v)[q] as int] == ls@[succs(ops, v)[q] as int] by {
                        let s = succs(ops, v)[q];
                        assert(succs(ops, v).contains(s));
                    }
                    lemma_min_or_frame(ls0, ls@, succs(ops, v), project_end as int);
                    if v != id as int {
                        assert(position(order, v as usize) >= k + 1);
                        assert(backward_ok(ops, ls0, lf0, project_end as int, v));
                    }
                }
            }
        }

        // float
        let mut float: Vec<Time> = Vec::new();
        let mut i: usize = 0;
        while i < n
            invariant
                0 <= i <= n,
                ls@.len() == n,
                es@.len() == n,
                float@.len() == i,
                forall|q: int| 0 <= q < i ==> #[trigger] float@[q] == sat_sub(ls@[q] as int, es@[q] as int),
            decreases n - i,
        {
            float.push(if ls[i] >= es[i] { ls[i] - es[i] } else { 0 });
            i = i + 1;
        }

        // path lengths
        let mut path_lengths = filled(n, 0);
        let mut k: usize = n;
        while k > 0
            invariant
                ops == self.operations@,
                n == ops.len(),
                self.precedence_ok(),
                self.durations_fit(),
                is_topological_order(ops, order),
                order == topo_order@,
                forall|v: usize| v < ops.len() ==> 0 <= #[trigger] position(order, v) < ops.len() && order[position(order, v)] == v,
                forall|t: int| 0 <= t < order.len() ==> #[trigger] position(order, order[t]) == t,
                forall|u: int, v: int| 0 <= u < ops.len() && 0 <= v < ops.len() && #[trigger] succs(ops, u).contains(v as usize)
                    ==> position(order, u as usize) < position(order, v as usize),
                0 <= k <= n,
                path_lengths@.len() == n,
                forall|v: int| 0 <= v < n && position(order, v as usize) >= k
                    ==> #[trigger] path_ok(ops, path_lengths@, v),
                forall|v: int| 0 <= v < n && position(order, v as usize) >= k
                    ==> #[trigger] path_lengths@[v] <= sum_dur(ops, placed_from(order, n as nat, k as int), n as int),
            decreases k,
        {
            k = k - 1;
            let id = topo_order[k];
            let ghost pl0 = path_lengths@;
            let ghost before = placed_from(order, n as nat, k + 1);
            let ghost after = placed_from(order, n as nat, k as int);
            proof {
                assert(after =~= before.update(id as int, true));
                lemma_sum_dur_set(ops, before, n as int, id as int);
                lemma_sum_dur_le_total(ops, after, n as int);
                lemma_sum_dur_le_total(ops, before, n as int);
                assert(sum_dur(ops, after, n as int) <= total_duration(ops));
                assert(max_batch_start(self.batches@) >= 0) by {
                    crate::sums::lemma_max_batch_start_nonneg(self.batches@);
                }
            }
            let ns = self.operations[id].successor_ids.len();
            let mut m: Time = 0;
            let mut j: usize = 0;
            while j < ns
                invariant
                    ops == self.operations@,
                    n == ops.len(),
                    self.precedence_ok(),
                    id < n,
                    path_lengths@ == pl0,
                    path_lengths@.len() == n,
                    ns == succs(ops, id as int).len(),
                    0 <= j <= ns,
                    m == max_over(path_lengths@, succs(ops, id as int).take(j as int)),
                decreases ns - j,
            {
                let s = self.operations[id].successor_ids[j];
                proof {
                    lemma_max_over_take(path_lengths@, succs(ops, id as int), j as int);
                    assert(succs(ops, id as int)[j as int] < n);
                }
                if path_lengths[s] > m {
                    m = path_lengths[s];
                }
                j = j + 1;
            }
            proof {
                assert(succs(ops, id as int).take(ns as int) =~= succs(ops, id as int));
                assert forall|q: int| 0 <= q < ns implies #[trigger] path_lengths@[succs(ops, id as int)[q] as int]
                    <= sum_dur(ops, before, n as int) by {
                    let s = succs(ops, id as int)[q];
                    assert(succs(ops, id as int).contains(s));
                }
                lemma_max_over_bound(path_lengths@, succs(ops, id as int), sum_dur(ops, before, n as int));
            }
            path_lengths.set(id, self.operations[id].duration + m);
            proof {
                assert forall|v: int| 0 <= v < n && position(order, v as usize) >= k
                    implies #[trigger] path_ok(ops, path_lengths@, v) by {
                    assert forall|q: int| 0 <= q < succs(ops, v).len() implies pl0[#[trigger] succs(ops, v)[q] as int] == path_lengths@[succs(ops, v)[q] as int] by {
                        let s = succs(ops, v)[q];
                        assert(succs(ops, v).contains(s));
                    }
                    lemma_max_over_frame(pl0, path_lengths@, succs(ops, v));
                    if v != id as int {
                        assert(position(order, v as usize) >= k + 1);
                        assert(path_ok(ops, pl0, v));
                    }
                }
                assert forall|v: int| 0 <= v < n && position(order, v as usize) >= k
                    implies #[trigger] path_lengths@[v] <= sum_dur(ops, after, n as int) by {
                    if v != id as int {
                        assert(position(order, v as usize) >= k + 1);
                    }
                }
            }
        }

        proof {
            assert(has_topological_order(ops));
            assert forall|v: int| 0 <= v < n implies #[trigger] forward_ok(ops, batches, es@, ef@, v) by {
                assert(position(order, v as usize) < n);
            }
            assert forall|v: int| 0 <= v < n implies #[trigger] backward_ok(ops, ls@, lf@, seq_max(ef@), v) by {
                assert(position(order, v as usize) >= 0);
            }
            assert forall|v: int| 0 <= v < n implies #[trigger] path_ok(ops, path_lengths@, v) by {
                assert(position(order, v as usize) >= 0);
            }
        }
        Ok(CriticalPathData {
            earliest_start: es,
            earliest_finish: ef,
            latest_start: ls,
            latest_finish: lf,
            float: float,
            path_lengths: path_lengths,
        })
    }
}

/// The critical path equations read only what defines the problem, so they
/// hold for every schedule of the same problem.
pub proof fn lemma_consistent_same_problem(a: Seq<Operation>, b: Seq<Operation>, batches: Seq<Batch>, cp: CriticalPathData)
    requires
        same_problem(a, b),
        critical_path_consistent(a, batches, cp),
    ensures
        critical_path_consistent(b, batches, cp),
{
    let n = a.len();
    assert forall|v: int| 0 <= v < n implies #[trigger] succs(b, v) == succs(a, v) && preds(b, v) == preds(a, v)
        && b[v].duration == a[v].duration && batch_start_of(b, batches, v) == batch_start_of(a, batches, v) by {}
    assert forall|v: int| 0 <= v < n implies #[trigger] forward_ok(b, batches, cp.earliest_start@, cp.earliest_finish@, v) by {
        assert(forward_ok(a, batches, cp.earliest_start@, cp.earliest_finish@, v));
        assert(preds(b, v) == preds(a, v));
    }
    assert forall|v: int| 0 <= v < n implies #[trigger] backward_ok(b, cp.latest_start@, cp.latest_finish@, seq_max(cp.earliest_finish@), v) by {
        assert(backward_ok(a, cp.latest_start@, cp.latest_finish@, seq_max(cp.earliest_finish@), v));
        assert(succs(b, v) == succs(a, v));
    }
    assert forall|v: int| 0 <= v < n implies #[trigger] path_ok(b, cp.path_lengths@, v) by {
        assert(path_ok(a, cp.path_lengths@, v));
        assert(succs(b, v) == succs(a, v));
    }
}

/// Every operation is placed on a span of its own length that starts no
/// earlier than its batch and than the end of each of its predecessors.
pub open spec fn respects_precedences(ops: Seq<Operation>, batches: Seq<Batch>) -> bool {
    forall|v: int| 0 <= v < ops.len() ==> {
        &&& (#[trigger] ops[v]).scheduled_span matches Some(s) && {
            &&& s.wf()
            &&& s.duration == ops[v].duration
            &&& s.start >= batches[ops[v].assigned_batch_id as int].start_time
            &&& forall|q: int| 0 <= q < preds(ops, v).len() ==> {
                let p = #[trigger] preds(ops, v)[q] as int;
                ops[p].scheduled_span matches Some(ps) && ps.end <= s.start
            }
        }
    }
}

proof fn lemma_earliest_start_upto(ops: Seq<Operation>, batches: Seq<Batch>, gc: int, cp: CriticalPathData, order: Seq<usize>, t: int)
    requires
        graph_wf(ops, batches.len() as int, gc),
        is_topological_order(ops, order),
        ops.len() <= usize::MAX,
        critical_path_consistent(ops, batches, cp),
        respects_precedences(ops, batches),
        0 <= t <= order.len(),
    ensures
        forall|k: int| 0 <= k < t ==> (#[trigger] ops[order[k] as int]).scheduled_span->0.start >= cp.earliest_start@[order[k] as int],
    decreases t,
{
    if t > 0 {
        lemma_earliest_start_upto(ops, batches, gc, cp, order, t - 1);
        lemma_positions(ops, order);
        let v = order[t - 1] as int;
        let s = ops[v].scheduled_span->0;
        let es = cp.earliest_start@;
        let ef = cp.earliest_finish@;
        assert(forward_ok(ops, batches, es, ef, v));
        assert forall|q: int| 0 <= q < preds(ops, v).len() implies ef[#[trigger] preds(ops, v)[q] as int] <= s.start by {
            let p = preds(ops, v)[q];
            assert(p < ops.len());
            assert(preds(ops, v).contains(p));
            crate::graph::lemma_mirror(ops, batches.len() as int, gc, p, v as usize);
            assert(position(order, p) < position(order, v as usize));
            assert(position(order, v as usize) == t - 1);
            let kp = position(order, p);
            assert(order[kp] == p);
            assert(ops[order[kp] as int].scheduled_span->0.start >= es[order[kp] as int]);
            assert(forward_ok(ops, batches, es, ef, p as int));
        }
        lemma_max_over_bound(ef, preds(ops, v), s.start as int);
        assert forall|k: int| 0 <= k < t implies (#[trigger] ops[order[k] as int]).scheduled_span->0.start >= cp.earliest_start@[order[k] as int] by {}
    }
}

proof fn lemma_seq_max_bound(vals: Seq<Time>, c: int)
    requires
        c >= 0,
        forall|k: int| 0 <= k < vals.len() ==> #[trigger] vals[k] <= c,
    ensures
        seq_max(vals) <= c,
    decreases vals.len(),
{
    if vals.len() > 0 {
        assert forall|k: int| 0 <= k < vals.drop_last().len() implies #[trigger] vals.drop_last()[k] <= c by {
            assert(vals.drop_last()[k] == vals[k]);
        }
        lemma_seq_max_bound(vals.drop_last(), c);
        assert(vals[vals.len() - 1] <= c);
    }
}

/// When every operation starts no earlier than its batch and than the ends
/// of its predecessors, no operation starts before its earliest start or
/// ends before its earliest finish, and the latest end is at least the
/// project end of the critical path.
pub proof fn lemma_critical_path_bound(ops: Seq<Operation>, batches: Seq<Batch>, gc: int, cp: CriticalPathData)
    requires
        graph_wf(ops, batches.len() as int, gc),
        has_topological_order(ops),
        ops.len() <= usize::MAX,
        critical_path_consistent(ops, batches, cp),
        respects_precedences(ops, batches),
    ensures
        forall|v: int| 0 <= v < ops.len() ==> (#[trigger] ops[v]).scheduled_span->0.start >= cp.earliest_start@[v]
            && ops[v].scheduled_span->0.end >= cp.earliest_finish@[v],
        execute_time_of(ops) >= seq_max(cp.earliest_finish@),
{
    let order = choose|order: Seq<usize>| is_topological_order(ops, order);
    lemma_positions(ops, order);
    lemma_earliest_start_upto(ops, batches, gc, cp, order, order.len() as int);
    assert forall|v: int| 0 <= v < ops.len() implies (#[trigger] ops[v]).scheduled_span->0.start >= cp.earliest_start@[v]
        && ops[v].scheduled_span->0.end >= cp.earliest_finish@[v] by {
        let k = position(order, v as usize);
        assert(order[k] == v as usize);
        assert(ops[order[k] as int].scheduled_span->0.start >= cp.earliest_start@[order[k] as int]);
        assert(forward_ok(ops, batches, cp.earliest_start@, cp.earliest_finish@, v));
    }
    crate::placement::lemma_execute_time_upto(ops, ops.len() as int);
    assert forall|k: int| 0 <= k < cp.earliest_finish@.len() implies #[trigger] cp.earliest_finish@[k] <= execute_time_of(ops) by {
        assert(ops[k].scheduled_span->0.end >= cp.earliest_finish@[k]);
        assert(crate::placement::end_or_zero(ops[k]) <= execute_time_of(ops));
    }
    lemma_seq_max_bound(cp.earliest_finish@, execute_time_of(ops));
}

} // verus!
