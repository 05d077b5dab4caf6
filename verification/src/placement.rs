use vstd::prelude::*;
use crate::job::{Batch, Operation};
use crate::time::{Span, spans_overlap};
use crate::worker::{free_start, max_end, overlaps_at, Resource, ResourceGroup};
use crate::graph::preds;
use crate::sums::max_batch_start;

verus! {

/// End of the operation's span, 0 when it has none.
pub open spec fn end_or_zero(op: Operation) -> int {
    match op.scheduled_span {
        Some(s) => s.end as int,
        None => 0,
    }
}

/// Latest span end among the listed operations (0 for none).
pub open spec fn max_end_of(ops: Seq<Operation>, idxs: Seq<usize>) -> int
    decreases idxs.len(),
{
    if idxs.len() == 0 {
        0
    } else {
        let m = max_end_of(ops, idxs.drop_last());
        let e = end_or_zero(ops[idxs.last() as int]);
        if e > m { e } else { m }
    }
}

/// Latest span end among the operations below `m` (0 for none).
pub open spec fn execute_time_upto(ops: Seq<Operation>, m: int) -> int
    decreases m,
{
    if m <= 0 {
        0
    } else {
        let t = execute_time_upto(ops, m - 1);
        let e = end_or_zero(ops[m - 1]);
        if e > t { e } else { t }
    }
}

/// Latest span end over all operations (0 when none is scheduled).
pub open spec fn execute_time_of(ops: Seq<Operation>) -> int {
    execute_time_upto(ops, ops.len() as int)
}

/// Latest allocation end over a list of resources.
pub open spec fn resources_max_end(rs: Seq<Resource>) -> int
    decreases rs.len(),
{
    if rs.len() == 0 {
        0
    } else {
        let m = resources_max_end(rs.drop_last());
        let e = max_end(rs.last().allocations@);
        if e > m { e } else { m }
    }
}

/// Latest allocation end or next availability over all resource groups.
pub open spec fn groups_max_end(gs: Seq<ResourceGroup>) -> int
    decreases gs.len(),
{
    if gs.len() == 0 {
        0
    } else {
        let m = groups_max_end(gs.drop_last());
        let e0 = resources_max_end(gs.last().resources@);
        let e = if gs.last().next_available_time > e0 { gs.last().next_available_time as int } else { e0 };
        if e > m { e } else { m }
    }
}

/// The latest time anything in the schedule already refers to: a batch
/// start, an allocation end, a group's next availability or the end of a
/// placed operation.
pub open spec fn horizon(ops: Seq<Operation>, batches: Seq<Batch>, groups: Seq<ResourceGroup>) -> int {
    let a = max_batch_start(batches);
    let b = groups_max_end(groups);
    let c = execute_time_of(ops);
    let ab = if a >= b { a } else { b };
    if ab >= c { ab } else { c }
}

/// Every time in the schedule is at most `h`.
pub open spec fn times_within(ops: Seq<Operation>, batches: Seq<Batch>, groups: Seq<ResourceGroup>, h: int) -> bool {
    &&& forall|b: int| 0 <= b < batches.len() ==> #[trigger] batches[b].start_time <= h
    &&& forall|i: int| 0 <= i < ops.len() ==> #[trigger] end_or_zero(ops[i]) <= h
    &&& forall|g: int, r: int, k: int| 0 <= g < groups.len() && 0 <= r < groups[g].resources@.len()
        && 0 <= k < groups[g].resources@[r].allocations@.len()
        ==> #[trigger] groups[g].resources@[r].allocations@[k].end <= h
    &&& forall|g: int| 0 <= g < groups.len() ==> #[trigger] groups[g].next_available_time <= h
}

/// Operation `i` is placed: it has a span of its own length on a resource of
/// its group, recorded among that resource's allocations, starting no
/// earlier than its batch and than the end of every predecessor.
pub open spec fn placement_ok(ops: Seq<Operation>, batches: Seq<Batch>, groups: Seq<ResourceGroup>, i: int) -> bool {
    let op = ops[i];
    let g = op.assigned_resource_group_id as int;
    &&& op.scheduled_span matches Some(s) && {
        &&& s.wf()
        &&& s.duration == op.duration
        &&& s.start >= batches[op.assigned_batch_id as int].start_time
        &&& forall|q: int| 0 <= q < preds(ops, i).len() ==> {
            let p = #[trigger] preds(ops, i)[q] as int;
            &&& 0 <= p < ops.len()
            &&& ops[p].scheduled_span matches Some(ps) && ps.end <= s.start
        }
        &&& op.assigned_resource_id matches Some(r) && {
            &&& 0 <= g < groups.len()
            &&& r < groups[g].resources@.len()
            &&& groups[g].resources@[r as int].allocations@.contains(s)
        }
    }
}

/// Operations `i` and `j` do not use one resource at overlapping times.
pub open spec fn disjoint_on_resources(ops: Seq<Operation>, i: int, j: int) -> bool {
    (ops[i].assigned_resource_group_id == ops[j].assigned_resource_group_id
        && ops[i].assigned_resource_id == ops[j].assigned_resource_id
        && ops[i].scheduled_span is Some && ops[j].scheduled_span is Some)
        ==> !spans_overlap(ops[i].scheduled_span->0, ops[j].scheduled_span->0)
}

/// The operations agree on everything that defines the problem: ids,
/// durations, batches, groups and precedence lists.
pub open spec fn same_problem(a: Seq<Operation>, b: Seq<Operation>) -> bool {
    &&& a.len() == b.len()
    &&& forall|i: int| 0 <= i < a.len() ==> {
        &&& (#[trigger] a[i]).id == b[i].id
        &&& a[i].duration == b[i].duration
        &&& a[i].assigned_batch_id == b[i].assigned_batch_id
        &&& a[i].assigned_resource_group_id == b[i].assigned_resource_group_id
        &&& a[i].predecessor_ids@ == b[i].predecessor_ids@
        &&& a[i].successor_ids@ == b[i].successor_ids@
    }
}

/// The groups keep their resources; every allocation list only grows.
pub open spec fn groups_extended(a: Seq<ResourceGroup>, b: Seq<ResourceGroup>) -> bool {
    &&& a.len() == b.len()
    &&& forall|g: int| 0 <= g < a.len() ==> (#[trigger] a[g]).resources@.len() == b[g].resources@.len()
    &&& forall|g: int, r: int| 0 <= g < a.len() && 0 <= r < a[g].resources@.len()
        ==> (#[trigger] a[g].resources@[r]).allocations@.is_prefix_of(b[g].resources@[r].allocations@)
}

/// Operations already placed keep their span and resource.
pub open spec fn keeps_placed(a: Seq<Operation>, b: Seq<Operation>) -> bool {
    forall|i: int| 0 <= i < a.len() && (#[trigger] a[i]).scheduled_span is Some
        ==> b[i].scheduled_span == a[i].scheduled_span && b[i].assigned_resource_id == a[i].assigned_resource_id
}

/// A group's next availability is the end of some resource's last
/// allocation, or 0.
pub proof fn lemma_next_available_bound(rs: Seq<Resource>, b: int)
    requires
        b >= 0,
        forall|r: int, k: int| 0 <= r < rs.len() && 0 <= k < rs[r].allocations@.len()
            ==> #[trigger] rs[r].allocations@[k].end <= b,
    ensures
        0 <= crate::worker::next_available_of(rs) <= b,
    decreases rs.len(),
{
    if rs.len() > 0 {
        assert forall|r: int, k: int| 0 <= r < rs.drop_last().len() && 0 <= k < rs.drop_last()[r].allocations@.len()
            implies #[trigger] rs.drop_last()[r].allocations@[k].end <= b by {
            assert(rs.drop_last()[r] == rs[r]);
        }
        lemma_next_available_bound(rs.drop_last(), b);
        let a = rs.last().allocations@;
        if a.len() > 0 {
            assert(rs[rs.len() - 1].allocations@[a.len() - 1].end <= b);
        }
    }
}

pub proof fn lemma_max_end_of_take(ops: Seq<Operation>, idxs: Seq<usize>, j: int)
    requires
        0 <= j < idxs.len(),
    ensures
        max_end_of(ops, idxs.take(j + 1)) == if end_or_zero(ops[idxs[j] as int]) > max_end_of(ops, idxs.take(j)) {
            end_or_zero(ops[idxs[j] as int])
        } else {
            max_end_of(ops, idxs.take(j))
        },
{
    assert(idxs.take(j + 1).drop_last() =~= idxs.take(j));
}

/// `max_end_of` only reads the operations at its indices.
pub proof fn lemma_max_end_of_frame(ops: Seq<Operation>, ops1: Seq<Operation>, idxs: Seq<usize>)
    requires
        forall|k: int| 0 <= k < idxs.len() ==> end_or_zero(ops[#[trigger] idxs[k] as int]) == end_or_zero(ops1[idxs[k] as int]),
    ensures
        max_end_of(ops, idxs) == max_end_of(ops1, idxs),
    decreases idxs.len(),
{
    if idxs.len() > 0 {
        assert forall|k: int| 0 <= k < idxs.drop_last().len() implies end_or_zero(ops[#[trigger] idxs.drop_last()[k] as int])
            == end_or_zero(ops1[idxs.drop_last()[k] as int]) by {
            assert(idxs.drop_last()[k] == idxs[k]);
        }
        lemma_max_end_of_frame(ops, ops1, idxs.drop_last());
    }
}

pub proof fn lemma_max_end_of_bound(ops: Seq<Operation>, idxs: Seq<usize>, c: int)
    requires
        c >= 0,
        forall|k: int| 0 <= k < idxs.len() ==> end_or_zero(ops[#[trigger] idxs[k] as int]) <= c,
    ensures
        0 <= max_end_of(ops, idxs) <= c,
    decreases idxs.len(),
{
    if idxs.len() > 0 {
        assert forall|k: int| 0 <= k < idxs.drop_last().len() implies end_or_zero(ops[#[trigger] idxs.drop_last()[k] as int]) <= c by {
            assert(idxs.drop_last()[k] == idxs[k]);
        }
        lemma_max_end_of_bound(ops, idxs.drop_last(), c);
    }
}

pub proof fn lemma_max_end_of_ge(ops: Seq<Operation>, idxs: Seq<usize>, k: int)
    requires
        0 <= k < idxs.len(),
    ensures
        end_or_zero(ops[idxs[k] as int]) <= max_end_of(ops, idxs),
    decreases idxs.len(),
{
    if k < idxs.len() - 1 {
        lemma_max_end_of_ge(ops, idxs.drop_last(), k);
        assert(idxs.drop_last()[k] == idxs[k]);
    }
}

pub proof fn lemma_execute_time_upto(ops: Seq<Operation>, m: int)
    requires
        0 <= m <= ops.len(),
    ensures
        execute_time_upto(ops, m) >= 0,
        forall|i: int| 0 <= i < m ==> end_or_zero(#[trigger] ops[i]) <= execute_time_upto(ops, m),
    decreases m,
{
    if m > 0 {
        lemma_execute_time_upto(ops, m - 1);
    }
}

/// When every span ends by `c`, so does the latest one.
pub proof fn lemma_execute_time_within(ops: Seq<Operation>, m: int, c: int)
    requires
        0 <= m <= ops.len(),
        c >= 0,
        forall|i: int| 0 <= i < ops.len() ==> #[trigger] end_or_zero(ops[i]) <= c,
    ensures
        execute_time_upto(ops, m) <= c,
    decreases m,
{
    if m > 0 {
        lemma_execute_time_within(ops, m - 1, c);
    }
}

pub proof fn lemma_resources_max_end(rs: Seq<Resource>)
    ensures
        resources_max_end(rs) >= 0,
        forall|r: int, k: int| 0 <= r < rs.len() && 0 <= k < rs[r].allocations@.len()
            ==> #[trigger] rs[r].allocations@[k].end <= resources_max_end(rs),
    decreases rs.len(),
{
    if rs.len() > 0 {
        lemma_resources_max_end(rs.drop_last());
        crate::worker::lemma_max_end_bounds(rs.last().allocations@);
        assert forall|r: int, k: int| 0 <= r < rs.len() && 0 <= k < rs[r].allocations@.len()
            implies #[trigger] rs[r].allocations@[k].end <= resources_max_end(rs) by {
            if r < rs.len() - 1 {
                assert(rs.drop_last()[r] == rs[r]);
            }
        }
    }
}

pub proof fn lemma_groups_max_end(gs: Seq<ResourceGroup>)
    ensures
        groups_max_end(gs) >= 0,
        forall|g: int, r: int, k: int| 0 <= g < gs.len() && 0 <= r < gs[g].resources@.len()
            && 0 <= k < gs[g].resources@[r].allocations@.len()
            ==> #[trigger] gs[g].resources@[r].allocations@[k].end <= groups_max_end(gs),
        forall|g: int| 0 <= g < gs.len() ==> #[trigger] gs[g].next_available_time <= groups_max_end(gs),
    decreases gs.len(),
{
    if gs.len() > 0 {
        lemma_groups_max_end(gs.drop_last());
        lemma_resources_max_end(gs.last().resources@);
        assert(resources_max_end(gs.last().resources@) <= groups_max_end(gs));
        assert(groups_max_end(gs.drop_last()) <= groups_max_end(gs));
        assert forall|g: int, r: int, k: int| 0 <= g < gs.len() && 0 <= r < gs[g].resources@.len()
            && 0 <= k < gs[g].resources@[r].allocations@.len()
            implies #[trigger] gs[g].resources@[r].allocations@[k].end <= groups_max_end(gs) by {
            if g < gs.len() - 1 {
                assert(gs.drop_last()[g] == gs[g]);
            } else {
                assert(gs[g] == gs.last());
                assert(gs.last().resources@[r].allocations@[k].end <= resources_max_end(gs.last().resources@));
            }
        }
        assert forall|g: int| 0 <= g < gs.len() implies #[trigger] gs[g].next_available_time <= groups_max_end(gs) by {
            if g < gs.len() - 1 {
                assert(gs.drop_last()[g] == gs[g]);
            }
        }
    }
}

/// Every time in a schedule is within its horizon.
pub proof fn lemma_horizon(ops: Seq<Operation>, batches: Seq<Batch>, groups: Seq<ResourceGroup>)
    ensures
        horizon(ops, batches, groups) >= 0,
        times_within(ops, batches, groups, horizon(ops, batches, groups)),
{
    lemma_groups_max_end(groups);
    lemma_execute_time_upto(ops, ops.len() as int);
    crate::sums::lemma_max_batch_start_nonneg(batches);
    assert forall|b: int| 0 <= b < batches.len() implies #[trigger] batches[b].start_time <= horizon(ops, batches, groups) by {
        crate::sums::lemma_max_batch_start(batches, b);
    }
}

/// How one placement changes the operations: `x` gets resource `rid` and
/// span `span`, everything else stays.
pub open spec fn placed_one(ops: Seq<Operation>, ops1: Seq<Operation>, x: int, rid: usize, span: Span) -> bool {
    &&& ops1.len() == ops.len()
    &&& forall|i: int| 0 <= i < ops.len() && i != x ==> #[trigger] ops1[i] == ops[i]
    &&& ops1[x].id == ops[x].id
    &&& ops1[x].duration == ops[x].duration
    &&& ops1[x].assigned_batch_id == ops[x].assigned_batch_id
    &&& ops1[x].assigned_resource_group_id == ops[x].assigned_resource_group_id
    &&& ops1[x].predecessor_ids@ == ops[x].predecessor_ids@
    &&& ops1[x].successor_ids@ == ops[x].successor_ids@
    &&& ops1[x].assigned_resource_id == Some(rid)
    &&& ops1[x].scheduled_span == Some(span)
}

/// How one allocation changes the groups: resource `rid` of group `g` gets
/// `span` appended and the group's next availability is recomputed.
pub open spec fn allocated_one(groups: Seq<ResourceGroup>, groups1: Seq<ResourceGroup>, g: int, rid: int, span: Span) -> bool {
    &&& groups1.len() == groups.len()
    &&& forall|gg: int| 0 <= gg < groups.len() && gg != g ==> #[trigger] groups1[gg] == groups[gg]
    &&& groups1[g].resources@.len() == groups[g].resources@.len()
    &&& forall|rr: int| 0 <= rr < groups[g].resources@.len() && rr != rid
        ==> #[trigger] groups1[g].resources@[rr] == groups[g].resources@[rr]
    &&& groups1[g].resources@[rid].allocations@ == groups[g].resources@[rid].allocations@.push(span)
    &&& groups1[g].next_available_time == crate::worker::next_available_of(groups1[g].resources@)
}

/// Placing one ready operation on a free span of a resource of its group
/// keeps every flagged placement correct and disjoint, and moves every time
/// bound by at most the operation's duration.
pub proof fn lemma_place_step(
    ops: Seq<Operation>,
    ops1: Seq<Operation>,
    batches: Seq<Batch>,
    groups: Seq<ResourceGroup>,
    groups1: Seq<ResourceGroup>,
    flags: Seq<bool>,
    x: int,
    rid: usize,
    span: Span,
    b: int,
)
    requires
        flags.len() == ops.len(),
        0 <= x < ops.len(),
        0 <= ops[x].assigned_resource_group_id < groups.len(),
        0 <= rid < groups[ops[x].assigned_resource_group_id as int].resources@.len(),
        placed_one(ops, ops1, x, rid, span),
        allocated_one(groups, groups1, ops[x].assigned_resource_group_id as int, rid as int, span),
        ops[x].scheduled_span is None,
        !flags[x],
        forall|i: int| 0 <= i < ops.len() && #[trigger] flags[i] ==> ops[i].scheduled_span is Some,
        span.wf(),
        span.duration == ops[x].duration,
        span.start >= batches[ops[x].assigned_batch_id as int].start_time,
        forall|q: int| 0 <= q < preds(ops, x).len() ==> {
            let p = #[trigger] preds(ops, x)[q] as int;
            &&& 0 <= p < ops.len()
            &&& ops[p].scheduled_span matches Some(ps) && ps.end <= span.start
        },
        forall|k: int| 0 <= k < groups[ops[x].assigned_resource_group_id as int].resources@[rid as int].allocations@.len()
            ==> !overlaps_at(span.start as int, span.duration as int,
                #[trigger] groups[ops[x].assigned_resource_group_id as int].resources@[rid as int].allocations@[k]),
        forall|i: int| 0 <= i < ops.len() && #[trigger] flags[i] ==> placement_ok(ops, batches, groups, i),
        forall|i: int, j: int| 0 <= i < ops.len() && 0 <= j < ops.len() && i != j && #[trigger] flags[i] && #[trigger] flags[j]
            ==> disjoint_on_resources(ops, i, j),
        b >= 0,
        times_within(ops, batches, groups, b),
        span.end <= b + span.duration,
    ensures
        forall|i: int| 0 <= i < ops.len() && #[trigger] flags.update(x, true)[i] ==> placement_ok(ops1, batches, groups1, i),
        forall|i: int, j: int| 0 <= i < ops.len() && 0 <= j < ops.len() && i != j
            && #[trigger] flags.update(x, true)[i] && #[trigger] flags.update(x, true)[j]
            ==> disjoint_on_resources(ops1, i, j),
        times_within(ops1, batches, groups1, b + span.duration),
        groups_extended(groups, groups1),
        forall|gg: int, rr: int, s: Span| 0 <= gg < groups.len() && 0 <= rr < groups[gg].resources@.len()
            && #[trigger] groups[gg].resources@[rr].allocations@.contains(s)
            ==> groups1[gg].resources@[rr].allocations@.contains(s),
{
    let g = ops[x].assigned_resource_group_id as int;
    let d = span.duration;
    let allocs = groups[g].resources@[rid as int].allocations@;
    let nf = flags.update(x, true);
    assert(groups_extended(groups, groups1)) by {
        assert forall|gg: int, rr: int| 0 <= gg < groups.len() && 0 <= rr < groups[gg].resources@.len()
            implies (#[trigger] groups[gg].resources@[rr]).allocations@.is_prefix_of(groups1[gg].resources@[rr].allocations@) by {
            let a1 = groups[gg].resources@[rr].allocations@;
            let a2 = groups1[gg].resources@[rr].allocations@;
            if gg == g && rr == rid as int {
                assert(a2 == a1.push(span));
            } else if gg == g {
                assert(a2 == a1);
            }
            assert(a2.subrange(0, a1.len() as int) =~= a1);
        }
        assert forall|gg: int| 0 <= gg < groups.len() implies (#[trigger] groups[gg]).resources@.len() == groups1[gg].resources@.len() by {
            if gg != g {
                assert(groups1[gg] == groups[gg]);
            }
        }
    }
    assert forall|gg: int, rr: int, s: Span| 0 <= gg < groups.len() && 0 <= rr < groups[gg].resources@.len()
        && #[trigger] groups[gg].resources@[rr].allocations@.contains(s)
        implies groups1[gg].resources@[rr].allocations@.contains(s) by {
        let a1 = groups[gg].resources@[rr].allocations@;
        let k = choose|k: int| 0 <= k < a1.len() && a1[k] == s;
        if gg == g && rr == rid as int {
            assert(groups1[gg].resources@[rr].allocations@[k] == s);
        } else if gg == g {
            assert(groups1[gg].resources@[rr] == groups[gg].resources@[rr]);
        } else {
            assert(groups1[gg] == groups[gg]);
        }
    }
    assert(placement_ok(ops1, batches, groups1, x)) by {
        assert forall|q: int| 0 <= q < preds(ops1, x).len() implies {
            let p = #[trigger] preds(ops1, x)[q] as int;
            ops1[p].scheduled_span matches Some(ps) && ps.end <= span.start
        } by {
            let p = preds(ops1, x)[q] as int;
            assert(preds(ops1, x) == preds(ops, x));
            assert(ops[p].scheduled_span is Some);
            assert(p != x);
            assert(ops1[p] == ops[p]);
        }
        assert(groups1[g].resources@[rid as int].allocations@[allocs.len() as int] == span);
    }
    assert forall|i: int| 0 <= i < ops.len() && #[trigger] nf[i] implies placement_ok(ops1, batches, groups1, i) by {
        if i != x {
            assert(flags[i]);
            assert(placement_ok(ops, batches, groups, i));
            assert(ops1[i] == ops[i]);
            let s_i = ops[i].scheduled_span->0;
            assert forall|q: int| 0 <= q < preds(ops1, i).len() implies {
                let p = #[trigger] preds(ops1, i)[q] as int;
                ops1[p].scheduled_span matches Some(ps) && ps.end <= s_i.start
            } by {
                let p = preds(ops1, i)[q] as int;
                assert(preds(ops, i)[q] as int == p);
                assert(ops[p].scheduled_span is Some);
                assert(p != x);
                assert(ops1[p] == ops[p]);
            }
            let gi = ops[i].assigned_resource_group_id as int;
            let ri = ops[i].assigned_resource_id->0 as int;
            assert(groups[gi].resources@[ri].allocations@.contains(s_i));
        }
    }
    assert forall|i: int, j: int| 0 <= i < ops.len() && 0 <= j < ops.len() && i != j && #[trigger] nf[i] && #[trigger] nf[j]
        implies disjoint_on_resources(ops1, i, j) by {
        if i != x && j != x {
            assert(flags[i] && flags[j]);
            assert(disjoint_on_resources(ops, i, j));
            assert(ops1[i] == ops[i] && ops1[j] == ops[j]);
        } else {
            let other = if i == x { j } else { i };
            assert(flags[other]);
            assert(ops1[other] == ops[other]);
            assert(placement_ok(ops, batches, groups, other));
            let so = ops[other].scheduled_span->0;
            if ops1[other].assigned_resource_group_id == g && ops1[other].assigned_resource_id == Some(rid) {
                assert(allocs.contains(so));
                let k = choose|k: int| 0 <= k < allocs.len() && allocs[k] == so;
                assert(!overlaps_at(span.start as int, d as int, allocs[k]));
            }
        }
    }
    assert(times_within(ops1, batches, groups1, b + d)) by {
        assert forall|i: int| 0 <= i < ops1.len() implies #[trigger] end_or_zero(ops1[i]) <= b + d by {
            if i != x {
                assert(ops1[i] == ops[i]);
                assert(end_or_zero(ops[i]) <= b);
            }
        }
        assert forall|gg: int, rr: int, k: int| 0 <= gg < groups1.len() && 0 <= rr < groups1[gg].resources@.len()
            && 0 <= k < groups1[gg].resources@[rr].allocations@.len()
            implies #[trigger] groups1[gg].resources@[rr].allocations@[k].end <= b + d by {
            if gg == g && rr == rid as int {
                if k < allocs.len() {
                    assert(groups1[gg].resources@[rr].allocations@[k] == allocs[k]);
                }
            } else if gg == g {
                assert(groups1[gg].resources@[rr] == groups[gg].resources@[rr]);
            } else {
                assert(groups1[gg] == groups[gg]);
            }
        }
        assert forall|gg: int| 0 <= gg < groups1.len() implies #[trigger] groups1[gg].next_available_time <= b + d by {
            if gg == g {
                let rs = groups1[g].resources@;
                assert forall|r: int, k: int| 0 <= r < rs.len() && 0 <= k < rs[r].allocations@.len()
                    implies #[trigger] rs[r].allocations@[k].end <= b + d by {
                    assert(groups1[g].resources@[r].allocations@[k].end <= b + d);
                }
                lemma_next_available_bound(rs, b + d);
            } else {
                assert(groups1[gg] == groups[gg]);
            }
        }
    }
}

/// Start time of the batch of operation `x`.
pub open spec fn root_time(ops: Seq<Operation>, batches: Seq<Batch>, x: int) -> int {
    batches[ops[x].assigned_batch_id as int].start_time as int
}

/// The earliest time operation `x` may start: its batch start or the end of
/// its latest predecessor.
pub open spec fn earliest_of(ops: Seq<Operation>, batches: Seq<Batch>, x: int) -> int {
    let m = max_end_of(ops, preds(ops, x));
    let b = root_time(ops, batches, x);
    if b >= m { b } else { m }
}

/// The allocations of resource `r` of group `g` once the first `k`
/// operations of `order` are placed on top of the groups `groups0`.
pub open spec fn allocs_at(ops: Seq<Operation>, groups0: Seq<ResourceGroup>, order: Seq<usize>, g: int, r: int, k: int) -> Seq<Span>
    decreases k,
{
    if k <= 0 {
        groups0[g].resources@[r].allocations@
    } else {
        let prev = allocs_at(ops, groups0, order, g, r, k - 1);
        let x = order[k - 1] as int;
        if ops[x].assigned_resource_group_id == g && (ops[x].assigned_resource_id matches Some(q) && q == r) {
            prev.push(ops[x].scheduled_span->0)
        } else {
            prev
        }
    }
}

/// The allocations of every resource of group `g` once the first `k`
/// operations of `order` are placed on top of the groups `groups0`.
pub open spec fn group_allocs_at(ops: Seq<Operation>, groups0: Seq<ResourceGroup>, order: Seq<usize>, g: int, k: int) -> Seq<Seq<Span>> {
    Seq::new(groups0[g].resources@.len(), |r: int| allocs_at(ops, groups0, order, g, r, k))
}

/// `rid` is the first of the allocation lists `allocs` on which a span of
/// length `d` can start earliest at or after `after`, and it starts at `start`.
pub open spec fn first_earliest(allocs: Seq<Seq<Span>>, d: int, after: int, rid: int, start: int) -> bool {
    &&& 0 <= rid < allocs.len()
    &&& start == free_start(allocs[rid], d, after)
    &&& forall|j: int| 0 <= j < allocs.len() ==> start <= #[trigger] free_start(allocs[j], d, after)
    &&& forall|j: int| 0 <= j < rid ==> start < #[trigger] free_start(allocs[j], d, after)
}

/// Operation `order[k]` sits on the first resource of its group on which,
/// given the allocations made before it, a span of its length can start
/// earliest at or after `after`, and starts there.
pub open spec fn best_after(ops: Seq<Operation>, groups0: Seq<ResourceGroup>, order: Seq<usize>, k: int, after: int) -> bool {
    let x = order[k] as int;
    let g = ops[x].assigned_resource_group_id as int;
    ops[x].assigned_resource_id matches Some(rid) && ops[x].scheduled_span matches Some(s)
        && first_earliest(group_allocs_at(ops, groups0, order, g, k), ops[x].duration as int, after, rid as int, s.start as int)
}

/// Every allocation list of `groups` is the one of `groups0` followed by the
/// spans of the operations of `order` placed on it, in order.
pub open spec fn allocations_follow(ops: Seq<Operation>, groups0: Seq<ResourceGroup>, groups: Seq<ResourceGroup>, order: Seq<usize>) -> bool {
    forall|g: int, r: int| 0 <= g < groups0.len() && 0 <= r < groups0[g].resources@.len()
        ==> #[trigger] groups[g].resources@[r].allocations@ == allocs_at(ops, groups0, order, g, r, order.len() as int)
}

/// `allocs_at` reads only the operations listed in the first `k` entries of `order`.
pub proof fn lemma_allocs_at_frame(ops: Seq<Operation>, ops1: Seq<Operation>, groups0: Seq<ResourceGroup>, order: Seq<usize>, g: int, r: int, k: int)
    requires
        0 <= k <= order.len(),
        forall|j: int| 0 <= j < k ==> #[trigger] ops1[order[j] as int] == ops[order[j] as int],
    ensures
        allocs_at(ops1, groups0, order, g, r, k) == allocs_at(ops, groups0, order, g, r, k),
    decreases k,
{
    if k > 0 {
        lemma_allocs_at_frame(ops, ops1, groups0, order, g, r, k - 1);
        assert(ops1[order[k - 1] as int] == ops[order[k - 1] as int]);
    }
}

/// `allocs_at` over a longer order agrees on the prefix.
pub proof fn lemma_allocs_at_push(ops: Seq<Operation>, groups0: Seq<ResourceGroup>, order: Seq<usize>, x: usize, g: int, r: int, k: int)
    requires
        0 <= k <= order.len(),
    ensures
        allocs_at(ops, groups0, order.push(x), g, r, k) == allocs_at(ops, groups0, order, g, r, k),
    decreases k,
{
    if k > 0 {
        lemma_allocs_at_push(ops, groups0, order, x, g, r, k - 1);
        assert(order.push(x)[k - 1] == order[k - 1]);
    }
}

/// Placing a new operation `x` on its best resource from `after` extends
/// the order by `x`: the allocations still follow the order, every earlier
/// entry keeps its place, and `x` is placed by `best_after`.
pub proof fn lemma_greedy_step(
    ops: Seq<Operation>,
    ops1: Seq<Operation>,
    groups0: Seq<ResourceGroup>,
    groups: Seq<ResourceGroup>,
    groups1: Seq<ResourceGroup>,
    order: Seq<usize>,
    x: usize,
    rid: usize,
    span: Span,
    after: int,
)
    requires
        x < ops.len(),
        !order.contains(x),
        forall|k: int| 0 <= k < order.len() ==> #[trigger] order[k] < ops.len(),
        0 <= ops[x as int].assigned_resource_group_id < groups0.len(),
        groups_extended(groups0, groups),
        allocations_follow(ops, groups0, groups, order),
        placed_one(ops, ops1, x as int, rid, span),
        allocated_one(groups, groups1, ops[x as int].assigned_resource_group_id as int, rid as int, span),
        crate::worker::is_best_resource(groups[ops[x as int].assigned_resource_group_id as int].resources@,
            ops[x as int].duration as int, after, rid as int, span.start as int),
    ensures
        allocations_follow(ops1, groups0, groups1, order.push(x)),
        forall|k: int, a: int| 0 <= k < order.len() ==> (#[trigger] best_after(ops1, groups0, order.push(x), k, a)
            <==> best_after(ops, groups0, order, k, a)),
        best_after(ops1, groups0, order.push(x), order.len() as int, after),
{
    let g = ops[x as int].assigned_resource_group_id as int;
    let no = order.push(x);
    let n = order.len() as int;
    assert forall|j: int| 0 <= j < n implies #[trigger] ops1[order[j] as int] == ops[order[j] as int] by {
        if order[j] as int == x as int {
            assert(order.contains(order[j]));
        }
    }
    assert forall|gg: int, r: int, k: int| 0 <= k <= n implies #[trigger] allocs_at(ops1, groups0, no, gg, r, k)
        == allocs_at(ops, groups0, order, gg, r, k) by {
        lemma_allocs_at_push(ops1, groups0, order, x, gg, r, k);
        assert forall|j: int| 0 <= j < k implies #[trigger] ops1[order[j] as int] == ops[order[j] as int] by {}
        lemma_allocs_at_frame(ops, ops1, groups0, order, gg, r, k);
    }
    assert(no[n] == x);
    assert forall|gg: int, r: int| 0 <= gg < groups0.len() && 0 <= r < groups0[gg].resources@.len()
        implies #[trigger] groups1[gg].resources@[r].allocations@ == allocs_at(ops1, groups0, no, gg, r, n + 1) by {
        assert(allocs_at(ops1, groups0, no, gg, r, n) == allocs_at(ops, groups0, order, gg, r, n));
        assert(groups[gg].resources@[r].allocations@ == allocs_at(ops, groups0, order, gg, r, n));
        if gg == g && r == rid as int {
        } else if gg != g {
            assert(groups1[gg] == groups[gg]);
        } else {
            assert(groups1[gg].resources@[r] == groups[gg].resources@[r]);
        }
    }
    assert forall|k: int, a: int| 0 <= k < n implies (#[trigger] best_after(ops1, groups0, no, k, a)
        <==> best_after(ops, groups0, order, k, a)) by {
        assert(no[k] == order[k]);
        assert(ops1[order[k] as int] == ops[order[k] as int]);
        let gk = ops[order[k] as int].assigned_resource_group_id as int;
        assert(group_allocs_at(ops1, groups0, no, gk, k) =~= group_allocs_at(ops, groups0, order, gk, k));
    }
    let d = ops[x as int].duration as int;
    let rs = groups[g].resources@;
    let ga = group_allocs_at(ops1, groups0, no, g, n);
    assert forall|j: int| 0 <= j < ga.len() implies #[trigger] ga[j] == rs[j].allocations@ by {
        assert(allocs_at(ops1, groups0, no, g, j, n) == allocs_at(ops, groups0, order, g, j, n));
    }
    assert(ops1[x as int].assigned_resource_group_id as int == g);
    assert forall|j: int| 0 <= j < ga.len() implies span.start <= #[trigger] free_start(ga[j], d, after) by {
        assert(span.start <= crate::worker::free_start_on(rs[j], d, after));
    }
    assert forall|j: int| 0 <= j < rid implies span.start < #[trigger] free_start(ga[j], d, after) by {
        assert(span.start < crate::worker::free_start_on(rs[j], d, after));
    }
}

} // verus!
