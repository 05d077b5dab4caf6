use vstd::prelude::*;
use crate::job::Operation;

verus! {

/// Successor list of operation `u`.
pub open spec fn succs(ops: Seq<Operation>, u: int) -> Seq<usize> {
    ops[u].successor_ids@
}

/// Predecessor list of operation `u`.
pub open spec fn preds(ops: Seq<Operation>, u: int) -> Seq<usize> {
    ops[u].predecessor_ids@
}

/// Every id an operation refers to is in range, every operation's id is its
/// index, and the predecessor lists mirror the successor lists.
pub open spec fn graph_wf(ops: Seq<Operation>, batch_count: int, group_count: int) -> bool {
    &&& forall|i: int| 0 <= i < ops.len() ==> (#[trigger] ops[i]).id == i
    &&& forall|i: int| 0 <= i < ops.len() ==> (#[trigger] ops[i]).assigned_batch_id < batch_count
    &&& forall|i: int| 0 <= i < ops.len() ==> (#[trigger] ops[i]).assigned_resource_group_id < group_count
    &&& forall|i: int, k: int| 0 <= i < ops.len() && 0 <= k < succs(ops, i).len()
        ==> #[trigger] succs(ops, i)[k] < ops.len()
    &&& forall|i: int, k: int| 0 <= i < ops.len() && 0 <= k < preds(ops, i).len()
        ==> #[trigger] preds(ops, i)[k] < ops.len()
    &&& forall|u: int, v: int| 0 <= u < ops.len() && 0 <= v < ops.len()
        ==> (#[trigger] succs(ops, u).contains(v as usize) <==> #[trigger] preds(ops, v).contains(u as usize))
}

/// Every predecessor listed by operation `i` is an operation.
pub open spec fn preds_in_range(ops: Seq<Operation>, i: int) -> bool {
    forall|q: int| 0 <= q < preds(ops, i).len() ==> #[trigger] preds(ops, i)[q] < ops.len()
}

/// Every successor listed by operation `i` is an operation.
pub open spec fn succs_in_range(ops: Seq<Operation>, i: int) -> bool {
    forall|q: int| 0 <= q < succs(ops, i).len() ==> #[trigger] succs(ops, i)[q] < ops.len()
}

/// Every successor, predecessor and batch id is in range, and the
/// predecessor lists mirror the successor lists: what the precedence graph
/// and its time passes read.
pub open spec fn precedence_wf(ops: Seq<Operation>, batch_count: int) -> bool {
    &&& forall|i: int| 0 <= i < ops.len() ==> (#[trigger] ops[i]).assigned_batch_id < batch_count
    &&& forall|i: int, k: int| 0 <= i < ops.len() && 0 <= k < succs(ops, i).len()
        ==> #[trigger] succs(ops, i)[k] < ops.len()
    &&& forall|i: int, k: int| 0 <= i < ops.len() && 0 <= k < preds(ops, i).len()
        ==> #[trigger] preds(ops, i)[k] < ops.len()
    &&& forall|u: int, v: int| 0 <= u < ops.len() && 0 <= v < ops.len()
        ==> (#[trigger] succs(ops, u).contains(v as usize) <==> #[trigger] preds(ops, v).contains(u as usize))
}

/// The mirror clause of `precedence_wf`, for two given operations.
pub proof fn lemma_mirror_of(ops: Seq<Operation>, batch_count: int, u: usize, v: usize)
    requires
        precedence_wf(ops, batch_count),
        u < ops.len(),
        v < ops.len(),
    ensures
        succs(ops, u as int).contains(v) <==> preds(ops, v as int).contains(u),
{
    assert(succs(ops, u as int).contains((v as int) as usize) <==> preds(ops, v as int).contains((u as int) as usize));
}

/// The mirror clause of `graph_wf`, for two given operations.
pub proof fn lemma_mirror(ops: Seq<Operation>, batch_count: int, group_count: int, u: usize, v: usize)
    requires
        graph_wf(ops, batch_count, group_count),
        u < ops.len(),
        v < ops.len(),
    ensures
        succs(ops, u as int).contains(v) <==> preds(ops, v as int).contains(u),
{
    assert(succs(ops, u as int).contains((v as int) as usize) <==> preds(ops, v as int).contains((u as int) as usize));
}

/// `order` lists every operation once, and each precedence edge goes
/// forward in it.
pub open spec fn is_topological_order(ops: Seq<Operation>, order: Seq<usize>) -> bool {
    &&& order.len() == ops.len()
    &&& order.no_duplicates()
    &&& forall|k: int| 0 <= k < order.len() ==> #[trigger] order[k] < ops.len()
    &&& forall|a: int, b: int| 0 <= a < order.len() && 0 <= b < order.len()
        && #[trigger] succs(ops, order[a] as int).contains(#[trigger] order[b]) ==> a < b
}

/// The precedence graph has no cycle: some order of the operations respects
/// every edge.
pub open spec fn has_topological_order(ops: Seq<Operation>) -> bool {
    exists|order: Seq<usize>| is_topological_order(ops, order)
}

/// Number of occurrences of `v` in `s`.
pub open spec fn occ(s: Seq<usize>, v: usize) -> nat
    decreases s.len(),
{
    if s.len() == 0 {
        0
    } else {
        occ(s.drop_last(), v) + if s.last() == v { 1nat } else { 0nat }
    }
}

/// Number of edges into `v` from operations `u < k` not marked done.
pub open spec fn in_edges(ops: Seq<Operation>, v: usize, done: Seq<bool>, k: int) -> nat
    decreases k,
{
    if k <= 0 {
        0
    } else {
        in_edges(ops, v, done, k - 1) + if done[k - 1] { 0nat } else { occ(succs(ops, k - 1), v) }
    }
}

pub proof fn lemma_push_contains(s: Seq<usize>, x: usize, y: usize)
    ensures
        s.push(x).contains(y) <==> (s.contains(y) || x == y),
{
    if s.contains(y) {
        let k = choose|k: int| 0 <= k < s.len() && s[k] == y;
        assert(s.push(x)[k] == y);
    }
    if x == y {
        assert(s.push(x)[s.len() as int] == y);
    }
    if s.push(x).contains(y) {
        let k = choose|k: int| 0 <= k < s.push(x).len() && s.push(x)[k] == y;
        if k < s.len() {
            assert(s[k] == y);
        }
    }
}

pub proof fn lemma_occ_zero(s: Seq<usize>, v: usize)
    ensures
        occ(s, v) == 0 <==> !s.contains(v),
    decreases s.len(),
{
    if s.len() > 0 {
        lemma_occ_zero(s.drop_last(), v);
        if s.drop_last().contains(v) {
            let k = choose|k: int| 0 <= k < s.drop_last().len() && s.drop_last()[k] == v;
            assert(s[k] == v);
        }
        if s.contains(v) && s.last() != v {
            let k = choose|k: int| 0 <= k < s.len() && s[k] == v;
            assert(s.drop_last()[k] == v);
        }
    }
}

pub proof fn lemma_occ_take(s: Seq<usize>, v: usize, j: int)
    requires
        0 <= j < s.len(),
    ensures
        occ(s.take(j + 1), v) == occ(s.take(j), v) + if s[j] == v { 1nat } else { 0nat },
        occ(s.take(j + 1), v) <= occ(s, v),
    decreases s.len() - j,
{
    assert(s.take(j + 1).drop_last() =~= s.take(j));
    if j + 1 < s.len() {
        lemma_occ_take(s, v, j + 1);
    } else {
        assert(s.take(j + 1) =~= s);
    }
}

pub proof fn lemma_in_edges_bound(ops: Seq<Operation>, v: usize, done: Seq<bool>, k: int, u: int)
    requires
        0 <= u < k,
        !done[u],
    ensures
        occ(succs(ops, u), v) <= in_edges(ops, v, done, k),
    decreases k,
{
    if u < k - 1 {
        lemma_in_edges_bound(ops, v, done, k - 1, u);
    }
}

/// Marking `u` done removes exactly its edges into `v` from the count.
pub proof fn lemma_in_edges_mark(ops: Seq<Operation>, v: usize, done: Seq<bool>, k: int, u: int)
    requires
        0 <= u < done.len(),
        !done[u],
        k <= done.len(),
    ensures
        in_edges(ops, v, done.update(u, true), k) == if u < k {
            in_edges(ops, v, done, k) - occ(succs(ops, u), v)
        } else {
            in_edges(ops, v, done, k) as int
        },
    decreases k,
{
    if k > 0 {
        lemma_in_edges_mark(ops, v, done, k - 1, u);
        if u < k - 1 {
            lemma_in_edges_bound(ops, v, done, k - 1, u);
        }
    }
}

/// No edge into `v` comes from an operation below `k` not marked done.
pub proof fn lemma_in_edges_zero(ops: Seq<Operation>, v: usize, done: Seq<bool>, k: int)
    requires
        k <= done.len(),
    ensures
        in_edges(ops, v, done, k) == 0 <==> forall|u: int| 0 <= u < k && !done[u] ==> !(#[trigger] succs(ops, u)).contains(v),
    decreases k,
{
    if k > 0 {
        lemma_in_edges_zero(ops, v, done, k - 1);
        lemma_occ_zero(succs(ops, k - 1), v);
    }
}

/// A duplicate-free sequence of naturals below `n` has at most `n` elements,
/// and exactly `n` only when it holds every one of them.
pub proof fn lemma_pigeonhole(s: Seq<usize>, n: nat)
    requires
        s.no_duplicates(),
        forall|k: int| 0 <= k < s.len() ==> #[trigger] s[k] < n,
        n <= usize::MAX + 1,
    ensures
        s.len() <= n,
        s.len() == n ==> forall|v: usize| v < n ==> s.contains(v),
        (forall|v: usize| v < n ==> s.contains(v)) ==> s.len() == n,
    decreases n,
{
    if n == 0 {
        if s.len() > 0 {
            assert(s[0] < 0);
        }
    } else {
        let top = (n - 1) as usize;
        if s.contains(top) {
            let idx = choose|i: int| 0 <= i < s.len() && s[i] == top;
            let t = s.remove(idx);
            assert forall|a: int, b: int| 0 <= a < t.len() && 0 <= b < t.len() && a != b implies t[a] != t[b] by {
                let a2 = if a < idx { a } else { a + 1 };
                let b2 = if b < idx { b } else { b + 1 };
                assert(t[a] == s[a2]);
                assert(t[b] == s[b2]);
            }
            assert forall|k: int| 0 <= k < t.len() implies #[trigger] t[k] < (n - 1) as nat by {
                let k2 = if k < idx { k } else { k + 1 };
                assert(t[k] == s[k2]);
                assert(k2 != idx);
            }
            lemma_pigeonhole(t, (n - 1) as nat);
            if s.len() == n {
                assert forall|v: usize| v < n implies s.contains(v) by {
                    if v != top {
                        assert(t.contains(v));
                        let j = choose|j: int| 0 <= j < t.len() && t[j] == v;
                        let j2 = if j < idx { j } else { j + 1 };
                        assert(s[j2] == v);
                    }
                }
            }
            if forall|v: usize| v < n ==> s.contains(v) {
                assert forall|v: usize| v < (n - 1) as nat implies t.contains(v) by {
                    assert(s.contains(v));
                    let j = choose|j: int| 0 <= j < s.len() && s[j] == v;
                    assert(j != idx);
                    let j2 = if j < idx { j } else { j - 1 };
                    assert(t[j2] == v);
                }
            }
        } else {
            assert forall|k: int| 0 <= k < s.len() implies #[trigger] s[k] < (n - 1) as nat by {
                assert(s[k] != top);
            }
            lemma_pigeonhole(s, (n - 1) as nat);
        }
    }
}

/// Every operation occurs in a topological order.
pub proof fn lemma_topological_order_covers(ops: Seq<Operation>, order: Seq<usize>)
    requires
        is_topological_order(ops, order),
        ops.len() <= usize::MAX,
    ensures
        forall|v: usize| v < ops.len() ==> order.contains(v),
{
    lemma_pigeonhole(order, ops.len());
}

/// Where `v` stands in `order`.
pub open spec fn position(order: Seq<usize>, v: usize) -> int {
    choose|t: int| 0 <= t < order.len() && order[t] == v
}

/// Positions in a topological order invert it, and edges go forward.
pub proof fn lemma_positions(ops: Seq<Operation>, order: Seq<usize>)
    requires
        is_topological_order(ops, order),
        ops.len() <= usize::MAX,
    ensures
        forall|v: usize| v < ops.len() ==> 0 <= #[trigger] position(order, v) < ops.len() && order[position(order, v)] == v,
        forall|t: int| 0 <= t < order.len() ==> #[trigger] position(order, order[t]) == t,
        forall|u: int, v: int| 0 <= u < ops.len() && 0 <= v < ops.len() && #[trigger] succs(ops, u).contains(v as usize)
            ==> position(order, u as usize) < position(order, v as usize),
{
    lemma_topological_order_covers(ops, order);
    assert forall|v: usize| v < ops.len() implies 0 <= #[trigger] position(order, v) < ops.len() && order[position(order, v)] == v by {
        assert(order.contains(v));
    }
    assert forall|t: int| 0 <= t < order.len() implies #[trigger] position(order, order[t]) == t by {
        assert(order.contains(order[t]));
        let p = position(order, order[t]);
        assert(order[p] == order[t]);
    }
    assert forall|u: int, v: int| 0 <= u < ops.len() && 0 <= v < ops.len() && #[trigger] succs(ops, u).contains(v as usize)
        implies position(order, u as usize) < position(order, v as usize) by {
        let a = position(order, u as usize);
        let b = position(order, v as usize);
        assert(order.contains(u as usize));
        assert(order.contains(v as usize));
        assert(order[a] == u as usize);
        assert(succs(ops, order[a] as int).contains(order[b]));
    }
}

/// The first position of `order` at or after `p` whose operation is not done.
pub proof fn lemma_first_not_done(order: Seq<usize>, done: Seq<bool>, p: int) -> (q: int)
    requires
        0 <= p <= order.len(),
        exists|k: int| p <= k < order.len() && order[k] < done.len() && !done[order[k] as int],
        forall|k: int| 0 <= k < order.len() ==> #[trigger] order[k] < done.len(),
    ensures
        p <= q < order.len(),
        !done[order[q] as int],
        forall|k: int| p <= k < q ==> done[#[trigger] order[k] as int],
    decreases order.len() - p,
{
    if !done[order[p] as int] {
        p
    } else {
        lemma_first_not_done(order, done, p + 1)
    }
}

/// If the graph has a topological order and some operation is not done, one
/// of the operations not done has every edge into it coming from a done one.
pub proof fn lemma_minimal_not_done(ops: Seq<Operation>, done: Seq<bool>) -> (v: usize)
    requires
        has_topological_order(ops),
        ops.len() <= usize::MAX,
        done.len() == ops.len(),
        exists|u: int| 0 <= u < ops.len() && !done[u],
    ensures
        v < ops.len(),
        !done[v as int],
        forall|u: int| 0 <= u < ops.len() && !done[u] ==> !(#[trigger] succs(ops, u)).contains(v),
{
    let order = choose|order: Seq<usize>| is_topological_order(ops, order);
    lemma_topological_order_covers(ops, order);
    let u0 = choose|u: int| 0 <= u < ops.len() && !done[u];
    assert(order.contains(u0 as usize));
    let k0 = choose|k: int| 0 <= k < order.len() && order[k] == u0 as usize;
    let q = lemma_first_not_done(order, done, 0);
    let v = order[q];
    assert forall|u: int| 0 <= u < ops.len() && !done[u] implies !(#[trigger] succs(ops, u)).contains(v) by {
        if succs(ops, u).contains(v) {
            assert(order.contains(u as usize));
            let a = choose|a: int| 0 <= a < order.len() && order[a] == u as usize;
            assert(succs(ops, order[a] as int).contains(order[q]));
            assert(a < q);
            assert(done[order[a] as int]);
        }
    }
    v
}

} // verus!
