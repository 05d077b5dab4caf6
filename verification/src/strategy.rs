use vstd::prelude::*;
use std::collections::VecDeque;
use rand::seq::SliceRandom;
use crate::indices::OperationId;
use crate::job::{Batch, Operation};
use crate::time::Time;
use crate::graph::succs;
use crate::schedule::CriticalPathData;

verus! {

/// The order in which ready operations are considered.
#[derive(Clone, Copy, PartialEq, Eq, Debug, Structural)]
pub enum SortStrategy {
    PriorityThenDueTime,
    DueTimeThenPriority,
    ShortestDurationFirst,
    LongestDurationFirst,
    MostSuccessorsFirst,
    FewestSuccessorsFirst,
    LongestSuccessorDuration,
    ShortestSuccessorDuration,
    EarliestDueDate,
    LongestCriticalPathFirst,
    Random,
}

/// Sum of the durations of the operations listed in `idxs`.
pub open spec fn dur_sum_of(ops: Seq<Operation>, idxs: Seq<usize>) -> int
    decreases idxs.len(),
{
    if idxs.len() == 0 {
        0
    } else {
        dur_sum_of(ops, idxs.drop_last()) + ops[idxs.last() as int].duration
    }
}

/// Sum of the durations of the successors of operation `id`.
pub open spec fn succ_dur_sum(ops: Seq<Operation>, id: int) -> int {
    dur_sum_of(ops, succs(ops, id))
}

/// The path lengths of the critical path data, if there is any.
pub open spec fn path_lengths_of(cp: Option<CriticalPathData>) -> Seq<Time> {
    match cp {
        Some(c) => c.path_lengths@,
        None => Seq::empty(),
    }
}

/// The key an operation is ordered by under a strategy: smaller keys come
/// first, compared by their first and then their second component. "Longest"
/// and "most" strategies negate the measure.
pub open spec fn sort_key(ops: Seq<Operation>, batches: Seq<Batch>, pl: Seq<Time>, strategy: SortStrategy, id: usize) -> (int, int) {
    let op = ops[id as int];
    let b = batches[op.assigned_batch_id as int];
    match strategy {
        SortStrategy::PriorityThenDueTime => (b.priority as int, b.due_time as int),
        SortStrategy::DueTimeThenPriority => (b.due_time as int, b.priority as int),
        SortStrategy::ShortestDurationFirst => (op.duration as int, 0),
        SortStrategy::LongestDurationFirst => (-(op.duration as int), 0),
        SortStrategy::MostSuccessorsFirst => (-(op.successor_ids@.len() as int), 0),
        SortStrategy::FewestSuccessorsFirst => (op.successor_ids@.len() as int, 0),
        SortStrategy::LongestSuccessorDuration => (-succ_dur_sum(ops, id as int), 0),
        SortStrategy::ShortestSuccessorDuration => (succ_dur_sum(ops, id as int), 0),
        SortStrategy::EarliestDueDate => (b.due_time as int, 0),
        SortStrategy::LongestCriticalPathFirst => (-(pl[id as int] as int), 0),
        SortStrategy::Random => (0, 0),
    }
}

/// Lexicographic order on keys.
pub open spec fn key_le(a: (int, int), b: (int, int)) -> bool {
    a.0 < b.0 || (a.0 == b.0 && a.1 <= b.1)
}

/// Insert `x` into `s` after the last element whose key is not greater.
pub open spec fn insert_by_key(s: Seq<usize>, x: usize, ops: Seq<Operation>, batches: Seq<Batch>, pl: Seq<Time>, strategy: SortStrategy) -> Seq<usize>
    decreases s.len(),
{
    if s.len() == 0 {
        seq![x]
    } else if key_le(sort_key(ops, batches, pl, strategy, s.last()), sort_key(ops, batches, pl, strategy, x)) {
        s.push(x)
    } else {
        insert_by_key(s.drop_last(), x, ops, batches, pl, strategy).push(s.last())
    }
}

/// The stable sort of `s` by `sort_key`: elements with equal keys keep their order.
pub open spec fn stable_sort_by_key(s: Seq<usize>, ops: Seq<Operation>, batches: Seq<Batch>, pl: Seq<Time>, strategy: SortStrategy) -> Seq<usize>
    decreases s.len(),
{
    if s.len() == 0 {
        s
    } else {
        insert_by_key(stable_sort_by_key(s.drop_last(), ops, batches, pl, strategy), s.last(), ops, batches, pl, strategy)
    }
}

/// Where `insert_by_key` puts `x`.
pub open spec fn insertion_point(s: Seq<usize>, x: usize, ops: Seq<Operation>, batches: Seq<Batch>, pl: Seq<Time>, strategy: SortStrategy) -> int
    decreases s.len(),
{
    if s.len() == 0 {
        0
    } else if key_le(sort_key(ops, batches, pl, strategy, s.last()), sort_key(ops, batches, pl, strategy, x)) {
        s.len() as int
    } else {
        insertion_point(s.drop_last(), x, ops, batches, pl, strategy)
    }
}

/// Keys never decrease along `s`.
pub open spec fn sorted_by_key(s: Seq<usize>, ops: Seq<Operation>, batches: Seq<Batch>, pl: Seq<Time>, strategy: SortStrategy) -> bool {
    forall|i: int, j: int| 0 <= i < j < s.len()
        ==> key_le(sort_key(ops, batches, pl, strategy, #[trigger] s[i]), sort_key(ops, batches, pl, strategy, #[trigger] s[j]))
}

/// Every key the strategy needs can be read, and sums of successor
/// durations fit in `Time` where the strategy adds them up.
pub open spec fn keys_computable(ops: Seq<Operation>, batches: Seq<Batch>, pl: Seq<Time>, strategy: SortStrategy, ids: Seq<usize>) -> bool {
    forall|k: int| 0 <= k < ids.len() ==> {
        let id = #[trigger] ids[k];
        &&& id < ops.len()
        &&& ops[id as int].assigned_batch_id < batches.len()
        &&& forall|q: int| 0 <= q < succs(ops, id as int).len() ==> #[trigger] succs(ops, id as int)[q] < ops.len()
        &&& (strategy is LongestSuccessorDuration || strategy is ShortestSuccessorDuration)
            ==> succ_dur_sum(ops, id as int) <= Time::MAX
        &&& strategy is LongestCriticalPathFirst ==> id < pl.len()
    }
}

/// Keys stay computable for any ids drawn from ids they were computable for.
pub proof fn lemma_keys_computable_subset(ops: Seq<Operation>, batches: Seq<Batch>, pl: Seq<Time>, strategy: SortStrategy, a: Seq<usize>, b: Seq<usize>)
    requires
        keys_computable(ops, batches, pl, strategy, b),
        forall|x: usize| a.contains(x) ==> b.contains(x),
    ensures
        keys_computable(ops, batches, pl, strategy, a),
{
    assert forall|k: int| 0 <= k < a.len() implies {
        let id = #[trigger] a[k];
        &&& id < ops.len()
        &&& ops[id as int].assigned_batch_id < batches.len()
        &&& forall|q: int| 0 <= q < succs(ops, id as int).len() ==> #[trigger] succs(ops, id as int)[q] < ops.len()
        &&& (strategy is LongestSuccessorDuration || strategy is ShortestSuccessorDuration)
            ==> succ_dur_sum(ops, id as int) <= Time::MAX
        &&& strategy is LongestCriticalPathFirst ==> id < pl.len()
    } by {
        assert(a.contains(a[k]));
        let jj = choose|jj: int| 0 <= jj < b.len() && b[jj] == a[k];
        assert(b[jj] == a[k]);
    }
}

pub proof fn lemma_insertion_point(s: Seq<usize>, x: usize, ops: Seq<Operation>, batches: Seq<Batch>, pl: Seq<Time>, strategy: SortStrategy)
    ensures
        0 <= insertion_point(s, x, ops, batches, pl, strategy) <= s.len(),
        insert_by_key(s, x, ops, batches, pl, strategy)
            == s.take(insertion_point(s, x, ops, batches, pl, strategy)).push(x)
                + s.skip(insertion_point(s, x, ops, batches, pl, strategy)),
    decreases s.len(),
{
    if s.len() > 0 {
        lemma_insertion_point(s.drop_last(), x, ops, batches, pl, strategy);
        let p = insertion_point(s, x, ops, batches, pl, strategy);
        if key_le(sort_key(ops, batches, pl, strategy, s.last()), sort_key(ops, batches, pl, strategy, x)) {
            assert(s.take(p) =~= s);
            assert(s.skip(p) =~= Seq::<usize>::empty());
            assert(insert_by_key(s, x, ops, batches, pl, strategy) =~= s.take(p).push(x) + s.skip(p));
        } else {
            let d = s.drop_last();
            assert(d.take(p) =~= s.take(p));
            assert(s.skip(p) =~= d.skip(p).push(s.last()));
            assert(insert_by_key(s, x, ops, batches, pl, strategy) =~= s.take(p).push(x) + s.skip(p));
        }
    } else {
        assert(insert_by_key(s, x, ops, batches, pl, strategy) =~= s.take(0).push(x) + s.skip(0));
    }
}

/// Inserting keeps a sorted sequence sorted and adds exactly `x`.
pub proof fn lemma_insert_by_key(s: Seq<usize>, x: usize, ops: Seq<Operation>, batches: Seq<Batch>, pl: Seq<Time>, strategy: SortStrategy)
    requires
        sorted_by_key(s, ops, batches, pl, strategy),
    ensures
        sorted_by_key(insert_by_key(s, x, ops, batches, pl, strategy), ops, batches, pl, strategy),
        insert_by_key(s, x, ops, batches, pl, strategy).to_multiset() == s.to_multiset().insert(x),
    decreases s.len(),
{
    broadcast use vstd::seq_lib::group_seq_properties;
    broadcast use vstd::multiset::group_multiset_axioms;
    let r = insert_by_key(s, x, ops, batches, pl, strategy);
    if s.len() == 0 {
        assert(r.to_multiset() =~= s.to_multiset().insert(x));
    } else {
        let kx = sort_key(ops, batches, pl, strategy, x);
        let d = s.drop_last();
        assert(sorted_by_key(d, ops, batches, pl, strategy)) by {
            assert forall|i: int, j: int| 0 <= i < j < d.len() implies
                key_le(sort_key(ops, batches, pl, strategy, #[trigger] d[i]), sort_key(ops, batches, pl, strategy, #[trigger] d[j])) by {
                assert(d[i] == s[i] && d[j] == s[j]);
            }
        }
        assert(s =~= d.push(s.last()));
        if key_le(sort_key(ops, batches, pl, strategy, s.last()), kx) {
            assert forall|i: int, j: int| 0 <= i < j < r.len() implies
                key_le(sort_key(ops, batches, pl, strategy, #[trigger] r[i]), sort_key(ops, batches, pl, strategy, #[trigger] r[j])) by {
                if j == s.len() {
                    if i < s.len() - 1 {
                        assert(key_le(sort_key(ops, batches, pl, strategy, s[i]), sort_key(ops, batches, pl, strategy, s[s.len() - 1])));
                    }
                } else {
                    assert(r[i] == s[i] && r[j] == s[j]);
                }
            }
            assert(r.to_multiset() =~= s.to_multiset().insert(x));
        } else {
            lemma_insert_by_key(d, x, ops, batches, pl, strategy);
            let r0 = insert_by_key(d, x, ops, batches, pl, strategy);
            lemma_insertion_point(d, x, ops, batches, pl, strategy);
            let last = s.last();
            // every element of r0 has key at most the key of `last`
            assert forall|i: int| 0 <= i < r0.len() implies
                key_le(sort_key(ops, batches, pl, strategy, #[trigger] r0[i]), sort_key(ops, batches, pl, strategy, last)) by {
                let p = insertion_point(d, x, ops, batches, pl, strategy);
                if i < p {
                    assert(r0[i] == d[i]);
                    assert(s[i] == d[i]);
                } else if i == p {
                    assert(r0[i] == x);
                } else {
                    assert(r0[i] == d[i - 1]);
                    assert(s[i - 1] == d[i - 1]);
                }
            }
            assert forall|i: int, j: int| 0 <= i < j < r.len() implies
                key_le(sort_key(ops, batches, pl, strategy, #[trigger] r[i]), sort_key(ops, batches, pl, strategy, #[trigger] r[j])) by {
                if j == r.len() - 1 {
                    assert(r[i] == r0[i]);
                } else {
                    assert(r[i] == r0[i] && r[j] == r0[j]);
                }
            }
            assert(r.to_multiset() =~= s.to_multiset().insert(x));
        }
    }
}

/// Lexicographic strict order on ranks.
pub open spec fn rank_lt(a: (int, int), b: (int, int)) -> bool {
    a.0 < b.0 || (a.0 == b.0 && a.1 < b.1)
}

/// Along `s`, elements with equal keys come in increasing `rank`.
pub open spec fn ranks_follow(
    s: Seq<usize>,
    ops: Seq<Operation>,
    batches: Seq<Batch>,
    pl: Seq<Time>,
    strategy: SortStrategy,
    rank: spec_fn(usize) -> (int, int),
) -> bool {
    forall|i: int, j: int| 0 <= i < j < s.len()
        && sort_key(ops, batches, pl, strategy, #[trigger] s[i]) == sort_key(ops, batches, pl, strategy, #[trigger] s[j])
        ==> rank_lt(rank(s[i]), rank(s[j]))
}

proof fn lemma_insertion_sides(s: Seq<usize>, x: usize, ops: Seq<Operation>, batches: Seq<Batch>, pl: Seq<Time>, strategy: SortStrategy)
    ensures
        forall|i: int| insertion_point(s, x, ops, batches, pl, strategy) <= i < s.len()
            ==> !key_le(sort_key(ops, batches, pl, strategy, #[trigger] s[i]), sort_key(ops, batches, pl, strategy, x)),
    decreases s.len(),
{
    lemma_insertion_point(s, x, ops, batches, pl, strategy);
    if s.len() > 0 {
        let d = s.drop_last();
        lemma_insertion_sides(d, x, ops, batches, pl, strategy);
        lemma_insertion_point(d, x, ops, batches, pl, strategy);
        if !key_le(sort_key(ops, batches, pl, strategy, s.last()), sort_key(ops, batches, pl, strategy, x)) {
            assert forall|i: int| insertion_point(s, x, ops, batches, pl, strategy) <= i < s.len()
                implies !key_le(sort_key(ops, batches, pl, strategy, #[trigger] s[i]), sort_key(ops, batches, pl, strategy, x)) by {
                if i < d.len() {
                    assert(s[i] == d[i]);
                }
            }
        }
    }
}

/// Each element of the sorted sequence is one of the input.
pub proof fn lemma_stable_sort_members(s: Seq<usize>, ops: Seq<Operation>, batches: Seq<Batch>, pl: Seq<Time>, strategy: SortStrategy)
    ensures
        forall|i: int| 0 <= i < stable_sort_by_key(s, ops, batches, pl, strategy).len()
            ==> s.contains(#[trigger] stable_sort_by_key(s, ops, batches, pl, strategy)[i]),
{
    broadcast use vstd::multiset::group_multiset_axioms;
    let t = stable_sort_by_key(s, ops, batches, pl, strategy);
    lemma_stable_sort(s, ops, batches, pl, strategy);
    t.to_multiset_ensures();
    s.to_multiset_ensures();
    assert forall|i: int| 0 <= i < t.len() implies s.contains(#[trigger] t[i]) by {
        assert(t.contains(t[i]));
        assert(t.to_multiset().count(t[i]) > 0);
        assert(s.to_multiset().count(t[i]) > 0);
    }
}

/// The stable sort keeps the order of elements with equal keys: when they
/// come in increasing rank, they still do after sorting.
pub proof fn lemma_stable_sort_ranks(
    s: Seq<usize>,
    ops: Seq<Operation>,
    batches: Seq<Batch>,
    pl: Seq<Time>,
    strategy: SortStrategy,
    rank: spec_fn(usize) -> (int, int),
)
    requires
        ranks_follow(s, ops, batches, pl, strategy, rank),
    ensures
        ranks_follow(stable_sort_by_key(s, ops, batches, pl, strategy), ops, batches, pl, strategy, rank),
    decreases s.len(),
{
    if s.len() > 0 {
        let d = s.drop_last();
        let x = s.last();
        assert forall|i: int, j: int| 0 <= i < j < d.len()
            && sort_key(ops, batches, pl, strategy, #[trigger] d[i]) == sort_key(ops, batches, pl, strategy, #[trigger] d[j])
            implies rank_lt(rank(d[i]), rank(d[j])) by {
            assert(d[i] == s[i] && d[j] == s[j]);
        }
        lemma_stable_sort_ranks(d, ops, batches, pl, strategy, rank);
        lemma_stable_sort(d, ops, batches, pl, strategy);
        let t = stable_sort_by_key(d, ops, batches, pl, strategy);
        lemma_insertion_point(t, x, ops, batches, pl, strategy);
        lemma_insertion_sides(t, x, ops, batches, pl, strategy);
        let p = insertion_point(t, x, ops, batches, pl, strategy);
        let r = stable_sort_by_key(s, ops, batches, pl, strategy);
        assert(r == t.take(p).push(x) + t.skip(p));
        let kx = sort_key(ops, batches, pl, strategy, x);
        // every element of `t` with the key of `x` ranks below `x`
        lemma_stable_sort_members(d, ops, batches, pl, strategy);
        assert forall|i: int| 0 <= i < t.len() && sort_key(ops, batches, pl, strategy, #[trigger] t[i]) == kx
            implies rank_lt(rank(t[i]), rank(x)) by {
            assert(d.contains(t[i]));
            let k = choose|k: int| 0 <= k < d.len() && d[k] == t[i];
            assert(s[k] == d[k] && s[s.len() - 1] == x);
        }
        assert forall|i: int, j: int| 0 <= i < j < r.len()
            && sort_key(ops, batches, pl, strategy, #[trigger] r[i]) == sort_key(ops, batches, pl, strategy, #[trigger] r[j])
            implies rank_lt(rank(r[i]), rank(r[j])) by {
            if j < p {
                assert(r[i] == t[i] && r[j] == t[j]);
            } else if j == p {
                assert(r[i] == t[i] && r[j] == x);
            } else if i < p {
                assert(r[i] == t[i] && r[j] == t[j - 1]);
            } else if i == p {
                assert(r[i] == x && r[j] == t[j - 1]);
            } else {
                assert(r[i] == t[i - 1] && r[j] == t[j - 1]);
            }
        }
    }
}

/// The stable sort is sorted and a permutation of its input.
pub proof fn lemma_stable_sort(s: Seq<usize>, ops: Seq<Operation>, batches: Seq<Batch>, pl: Seq<Time>, strategy: SortStrategy)
    ensures
        sorted_by_key(stable_sort_by_key(s, ops, batches, pl, strategy), ops, batches, pl, strategy),
        stable_sort_by_key(s, ops, batches, pl, strategy).to_multiset() == s.to_multiset(),
    decreases s.len(),
{
    broadcast use vstd::seq_lib::group_seq_properties;
    if s.len() > 0 {
        lemma_stable_sort(s.drop_last(), ops, batches, pl, strategy);
        lemma_insert_by_key(stable_sort_by_key(s.drop_last(), ops, batches, pl, strategy), s.last(), ops, batches, pl, strategy);
        assert(s =~= s.drop_last().push(s.last()));
    }
}

/// Sorting a sequence that is already sorted leaves it as it is.
pub proof fn lemma_stable_sort_sorted(s: Seq<usize>, ops: Seq<Operation>, batches: Seq<Batch>, pl: Seq<Time>, strategy: SortStrategy)
    requires
        sorted_by_key(s, ops, batches, pl, strategy),
    ensures
        stable_sort_by_key(s, ops, batches, pl, strategy) == s,
    decreases s.len(),
{
    if s.len() > 0 {
        let d = s.drop_last();
        assert(sorted_by_key(d, ops, batches, pl, strategy)) by {
            assert forall|i: int, j: int| 0 <= i < j < d.len() implies key_le(sort_key(ops, batches, pl, strategy, #[trigger] d[i]),
                sort_key(ops, batches, pl, strategy, #[trigger] d[j])) by {
                assert(d[i] == s[i] && d[j] == s[j]);
            }
        }
        lemma_stable_sort_sorted(d, ops, batches, pl, strategy);
        if d.len() > 0 {
            assert(d.last() == s[s.len() - 2]);
            assert(key_le(sort_key(ops, batches, pl, strategy, s[s.len() - 2]), sort_key(ops, batches, pl, strategy, s[s.len() - 1])));
            assert(d.push(s.last()) =~= s);
        } else {
            assert(seq![s.last()] =~= s);
        }
    }
}

/// Sorting, adding one id at the end and sorting again gives the sort of
/// the sequence with that id added: the queue is re-sorted stably.
pub proof fn lemma_stable_sort_push(s: Seq<usize>, x: usize, ops: Seq<Operation>, batches: Seq<Batch>, pl: Seq<Time>, strategy: SortStrategy)
    ensures
        stable_sort_by_key(stable_sort_by_key(s, ops, batches, pl, strategy).push(x), ops, batches, pl, strategy)
            == stable_sort_by_key(s.push(x), ops, batches, pl, strategy),
{
    let t = stable_sort_by_key(s, ops, batches, pl, strategy);
    lemma_stable_sort(s, ops, batches, pl, strategy);
    lemma_stable_sort_sorted(t, ops, batches, pl, strategy);
    assert(t.push(x).drop_last() =~= t);
    assert(s.push(x).drop_last() =~= s);
}

/// A queue sorted by a strategy lists the operations in the strategy's
/// order, read off the operations and batches themselves: for every two
/// ids, the earlier one has
/// - `PriorityThenDueTime`: a smaller batch priority, or the same and a due
///   time no later; `DueTimeThenPriority`: the same with the two swapped;
/// - `ShortestDurationFirst` / `LongestDurationFirst`: a duration no longer /
///   no shorter;
/// - `MostSuccessorsFirst` / `FewestSuccessorsFirst`: no fewer / no more
///   successors;
/// - `LongestSuccessorDuration` / `ShortestSuccessorDuration`: successors
///   that take no less / no more time together;
/// - `EarliestDueDate`: a batch due no later;
/// - `LongestCriticalPathFirst`: a path length no shorter.
pub proof fn law_sorted_queue_order(queue: Seq<usize>, ops: Seq<Operation>, batches: Seq<Batch>, pl: Seq<Time>, strategy: SortStrategy)
    ensures
        ({
            let out = stable_sort_by_key(queue, ops, batches, pl, strategy);
            forall|a: int, b: int| 0 <= a < b < out.len() ==> {
                let x = ops[#[trigger] out[a] as int];
                let y = ops[#[trigger] out[b] as int];
                let bx = batches[x.assigned_batch_id as int];
                let by = batches[y.assigned_batch_id as int];
                &&& strategy is PriorityThenDueTime ==> bx.priority < by.priority
                    || (bx.priority == by.priority && bx.due_time <= by.due_time)
                &&& strategy is DueTimeThenPriority ==> bx.due_time < by.due_time
                    || (bx.due_time == by.due_time && bx.priority <= by.priority)
                &&& strategy is ShortestDurationFirst ==> x.duration <= y.duration
                &&& strategy is LongestDurationFirst ==> x.duration >= y.duration
                &&& strategy is MostSuccessorsFirst ==> x.successor_ids@.len() >= y.successor_ids@.len()
                &&& strategy is FewestSuccessorsFirst ==> x.successor_ids@.len() <= y.successor_ids@.len()
                &&& strategy is LongestSuccessorDuration ==> dur_sum_of(ops, x.successor_ids@) >= dur_sum_of(ops, y.successor_ids@)
                &&& strategy is ShortestSuccessorDuration ==> dur_sum_of(ops, x.successor_ids@) <= dur_sum_of(ops, y.successor_ids@)
                &&& strategy is EarliestDueDate ==> bx.due_time <= by.due_time
                &&& strategy is LongestCriticalPathFirst ==> pl[out[a] as int] >= pl[out[b] as int]
            }
        }),
{
    let out = stable_sort_by_key(queue, ops, batches, pl, strategy);
    lemma_stable_sort(queue, ops, batches, pl, strategy);
    assert forall|a: int, b: int| 0 <= a < b < out.len() implies {
        let x = ops[#[trigger] out[a] as int];
        let y = ops[#[trigger] out[b] as int];
        let bx = batches[x.assigned_batch_id as int];
        let by = batches[y.assigned_batch_id as int];
        &&& strategy is PriorityThenDueTime ==> bx.priority < by.priority
            || (bx.priority == by.priority && bx.due_time <= by.due_time)
        &&& strategy is DueTimeThenPriority ==> bx.due_time < by.due_time
            || (bx.due_time == by.due_time && bx.priority <= by.priority)
        &&& strategy is ShortestDurationFirst ==> x.duration <= y.duration
        &&& strategy is LongestDurationFirst ==> x.duration >= y.duration
        &&& strategy is MostSuccessorsFirst ==> x.successor_ids@.len() >= y.successor_ids@.len()
        &&& strategy is FewestSuccessorsFirst ==> x.successor_ids@.len() <= y.successor_ids@.len()
        &&& strategy is LongestSuccessorDuration ==> dur_sum_of(ops, x.successor_ids@) >= dur_sum_of(ops, y.successor_ids@)
        &&& strategy is ShortestSuccessorDuration ==> dur_sum_of(ops, x.successor_ids@) <= dur_sum_of(ops, y.successor_ids@)
        &&& strategy is EarliestDueDate ==> bx.due_time <= by.due_time
        &&& strategy is LongestCriticalPathFirst ==> pl[out[a] as int] >= pl[out[b] as int]
    } by {
        assert(key_le(sort_key(ops, batches, pl, strategy, out[a]), sort_key(ops, batches, pl, strategy, out[b])));
    }
}

/// Operations `x` and `y` tie under `strategy`: whatever the strategy
/// compares is the same for both.
pub open spec fn tie_under(ops: Seq<Operation>, batches: Seq<Batch>, pl: Seq<Time>, strategy: SortStrategy, x: usize, y: usize) -> bool {
    let ox = ops[x as int];
    let oy = ops[y as int];
    let bx = batches[ox.assigned_batch_id as int];
    let by = batches[oy.assigned_batch_id as int];
    match strategy {
        SortStrategy::PriorityThenDueTime | SortStrategy::DueTimeThenPriority =>
            bx.priority == by.priority && bx.due_time == by.due_time,
        SortStrategy::ShortestDurationFirst | SortStrategy::LongestDurationFirst => ox.duration == oy.duration,
        SortStrategy::MostSuccessorsFirst | SortStrategy::FewestSuccessorsFirst =>
            ox.successor_ids@.len() == oy.successor_ids@.len(),
        SortStrategy::LongestSuccessorDuration | SortStrategy::ShortestSuccessorDuration =>
            dur_sum_of(ops, ox.successor_ids@) == dur_sum_of(ops, oy.successor_ids@),
        SortStrategy::EarliestDueDate => bx.due_time == by.due_time,
        SortStrategy::LongestCriticalPathFirst => pl[x as int] == pl[y as int],
        SortStrategy::Random => true,
    }
}

/// Sorting by a strategy is stable: two operations that tie under it come
/// out in the order they went in.
pub proof fn law_sorted_queue_stable(queue: Seq<usize>, ops: Seq<Operation>, batches: Seq<Batch>, pl: Seq<Time>, strategy: SortStrategy)
    requires
        queue.no_duplicates(),
    ensures
        ({
            let out = stable_sort_by_key(queue, ops, batches, pl, strategy);
            forall|a: int, b: int| 0 <= a < b < out.len() && tie_under(ops, batches, pl, strategy, #[trigger] out[a], #[trigger] out[b])
                ==> exists|i: int, j: int| 0 <= i < j < queue.len() && queue[i] == out[a] && queue[j] == out[b]
        }),
{
    let out = stable_sort_by_key(queue, ops, batches, pl, strategy);
    let rank = |x: usize| (0int, crate::serial::first_pos(queue, x));
    assert forall|i: int| 0 <= i < queue.len() implies crate::serial::first_pos(queue, #[trigger] queue[i]) == i by {
        crate::serial::lemma_first_pos(queue, queue[i]);
        let f = crate::serial::first_pos(queue, queue[i]);
        assert(queue.contains(queue[i]));
        if f > i {
            assert(queue[i] != queue[i]);
        }
    }
    assert(ranks_follow(queue, ops, batches, pl, strategy, rank));
    lemma_stable_sort_ranks(queue, ops, batches, pl, strategy, rank);
    lemma_stable_sort_members(queue, ops, batches, pl, strategy);
    assert forall|a: int, b: int| 0 <= a < b < out.len() && tie_under(ops, batches, pl, strategy, #[trigger] out[a], #[trigger] out[b])
        implies exists|i: int, j: int| 0 <= i < j < queue.len() && queue[i] == out[a] && queue[j] == out[b] by {
        assert(sort_key(ops, batches, pl, strategy, out[a]) == sort_key(ops, batches, pl, strategy, out[b]));
        assert(rank_lt(rank(out[a]), rank(out[b])));
        crate::serial::lemma_first_pos(queue, out[a]);
        crate::serial::lemma_first_pos(queue, out[b]);
        assert(queue.contains(out[a]) && queue.contains(out[b]));
        let i = crate::serial::first_pos(queue, out[a]);
        let j = crate::serial::first_pos(queue, out[b]);
        assert(queue[i] == out[a] && queue[j] == out[b]);
    }
}

/// Every strategy that does not depend on chance, in declaration order.
pub open spec fn deterministic_strategies() -> Seq<SortStrategy> {
    seq![
        SortStrategy::PriorityThenDueTime, SortStrategy::DueTimeThenPriority,
        SortStrategy::ShortestDurationFirst, SortStrategy::LongestDurationFirst,
        SortStrategy::MostSuccessorsFirst, SortStrategy::FewestSuccessorsFirst,
        SortStrategy::LongestSuccessorDuration, SortStrategy::ShortestSuccessorDuration,
        SortStrategy::EarliestDueDate, SortStrategy::LongestCriticalPathFirst,
    ]
}

impl SortStrategy {
    /// Every strategy, in declaration order.
    pub fn all() -> (r: Vec<SortStrategy>)
        ensures
            r@ == seq![
                SortStrategy::PriorityThenDueTime, SortStrategy::DueTimeThenPriority,
                SortStrategy::ShortestDurationFirst, SortStrategy::LongestDurationFirst,
                SortStrategy::MostSuccessorsFirst, SortStrategy::FewestSuccessorsFirst,
                SortStrategy::LongestSuccessorDuration, SortStrategy::ShortestSuccessorDuration,
                SortStrategy::EarliestDueDate, SortStrategy::LongestCriticalPathFirst, SortStrategy::Random,
            ],
    {
        let mut r = Self::all_except_random();
        r.push(SortStrategy::Random);
        r
    }

    /// Every strategy that does not depend on chance, in declaration order.
    pub fn all_except_random() -> (r: Vec<SortStrategy>)
        ensures
            r@ == deterministic_strategies(),
    {
        let mut r: Vec<SortStrategy> = Vec::new();
        r.push(SortStrategy::PriorityThenDueTime);
        r.push(SortStrategy::DueTimeThenPriority);
        r.push(SortStrategy::ShortestDurationFirst);
        r.push(SortStrategy::LongestDurationFirst);
        r.push(SortStrategy::MostSuccessorsFirst);
        r.push(SortStrategy::FewestSuccessorsFirst);
        r.push(SortStrategy::LongestSuccessorDuration);
        r.push(SortStrategy::ShortestSuccessorDuration);
        r.push(SortStrategy::EarliestDueDate);
        r.push(SortStrategy::LongestCriticalPathFirst);
        r
    }
}

pub proof fn lemma_dur_sum_take(ops: Seq<Operation>, idxs: Seq<usize>, j: int)
    requires
        0 <= j < idxs.len(),
    ensures
        dur_sum_of(ops, idxs.take(j + 1)) == dur_sum_of(ops, idxs.take(j)) + ops[idxs[j] as int].duration,
        dur_sum_of(ops, idxs.take(j + 1)) <= dur_sum_of(ops, idxs),
        dur_sum_of(ops, idxs.take(j)) >= 0,
    decreases idxs.len() - j,
{
    assert(idxs.take(j + 1).drop_last() =~= idxs.take(j));
    if j + 1 < idxs.len() {
        lemma_dur_sum_take(ops, idxs, j + 1);
    } else {
        assert(idxs.take(j + 1) =~= idxs);
    }
    lemma_dur_sum_nonneg(ops, idxs.take(j));
}

pub proof fn lemma_dur_sum_nonneg(ops: Seq<Operation>, idxs: Seq<usize>)
    ensures
        dur_sum_of(ops, idxs) >= 0,
    decreases idxs.len(),
{
    if idxs.len() > 0 {
        lemma_dur_sum_nonneg(ops, idxs.drop_last());
    }
}

/// Sum of the durations of the successors of operation `id`.
fn successor_duration_sum(operations: &Vec<Operation>, id: OperationId) -> (r: Time)
    requires
        id < operations@.len(),
        forall|q: int| 0 <= q < succs(operations@, id as int).len() ==> #[trigger] succs(operations@, id as int)[q] < operations@.len(),
        succ_dur_sum(operations@, id as int) <= Time::MAX,
    ensures
        r == succ_dur_sum(operations@, id as int),
{
    let ghost ops = operations@;
    let m = operations[id].successor_ids.len();
    let mut total: Time = 0;
    let mut j: usize = 0;
    while j < m
        invariant
            ops == operations@,
            id < ops.len(),
            m == succs(ops, id as int).len(),
            forall|q: int| 0 <= q < succs(ops, id as int).len() ==> #[trigger] succs(ops, id as int)[q] < ops.len(),
            succ_dur_sum(ops, id as int) <= Time::MAX,
            0 <= j <= m,
            total == dur_sum_of(ops, succs(ops, id as int).take(j as int)),
        decreases m - j,
    {
        let s = operations[id].successor_ids[j];
        proof {
            lemma_dur_sum_take(ops, succs(ops, id as int), j as int);
            assert(succs(ops, id as int)[j as int] < ops.len());
        }
        total = total + operations[s].duration;
        j = j + 1;
    }
    proof {
        assert(succs(ops, id as int).take(m as int) =~= succs(ops, id as int));
    }
    total
}

/// The key of operation `id` under `strategy`, as numbers.
fn key_of(
    operations: &Vec<Operation>,
    batches: &Vec<Batch>,
    critical_path_data: &Option<CriticalPathData>,
    strategy: SortStrategy,
    id: OperationId,
) -> (r: (i128, i128))
    requires
        keys_computable(operations@, batches@, path_lengths_of(*critical_path_data), strategy, seq![id]),
    ensures
        (r.0 as int, r.1 as int) == sort_key(operations@, batches@, path_lengths_of(*critical_path_data), strategy, id),
{
    assert(seq![id][0] == id);
    let op = &operations[id];
    let b = &batches[op.assigned_batch_id];
    match strategy {
        SortStrategy::PriorityThenDueTime => (b.priority as i128, b.due_time as i128),
        SortStrategy::DueTimeThenPriority => (b.due_time as i128, b.priority as i128),
        SortStrategy::ShortestDurationFirst => (op.duration as i128, 0),
        SortStrategy::LongestDurationFirst => (-(op.duration as i128), 0),
        SortStrategy::MostSuccessorsFirst => (-(op.successor_ids.len() as i128), 0),
        SortStrategy::FewestSuccessorsFirst => (op.successor_ids.len() as i128, 0),
        SortStrategy::LongestSuccessorDuration => (-(successor_duration_sum(operations, id) as i128), 0),
        SortStrategy::ShortestSuccessorDuration => (successor_duration_sum(operations, id) as i128, 0),
        SortStrategy::EarliestDueDate => (b.due_time as i128, 0),
        SortStrategy::LongestCriticalPathFirst => match critical_path_data {
            Some(cp) => (-(cp.path_lengths[id] as i128), 0),
            None => (0, 0),
        },
        SortStrategy::Random => (0, 0),
    }
}

/// The stable sort of `ids` by their keys under `strategy`.
fn sort_ids_by_key(
    operations: &Vec<Operation>,
    batches: &Vec<Batch>,
    critical_path_data: &Option<CriticalPathData>,
    strategy: SortStrategy,
    ids: &Vec<OperationId>,
) -> (out: Vec<OperationId>)
    requires
        keys_computable(operations@, batches@, path_lengths_of(*critical_path_data), strategy, ids@),
    ensures
        out@ == stable_sort_by_key(ids@, operations@, batches@, path_lengths_of(*critical_path_data), strategy),
{
    let ghost ops = operations@;
    let ghost bs = batches@;
    let ghost pl = path_lengths_of(*critical_path_data);
    let mut out: Vec<OperationId> = Vec::new();
    let mut keys: Vec<(i128, i128)> = Vec::new();
    let n = ids.len();
    let mut i: usize = 0;
    while i < n
        invariant
            ops == operations@,
            bs == batches@,
            pl == path_lengths_of(*critical_path_data),
            n == ids@.len(),
            keys_computable(ops, bs, pl, strategy, ids@),
            0 <= i <= n,
            out@ == stable_sort_by_key(ids@.take(i as int), ops, bs, pl, strategy),
            keys@.len() == out@.len(),
            forall|q: int| 0 <= q < out@.len() ==> (#[trigger] keys@[q].0 as int, keys@[q].1 as int)
                == sort_key(ops, bs, pl, strategy, out@[q]),
        decreases n - i,
    {
        let x = ids[i];
        proof {
            assert(ids@[i as int] == x);
            assert forall|k: int| 0 <= k < seq![x].len() implies #[trigger] seq![x][k] == ids@[i as int] by {}
        }
        let kx = key_of(operations, batches, critical_path_data, strategy, x);
        let mut p: usize = out.len();
        proof {
            assert(out@.take(p as int) =~= out@);
        }
        while p > 0 && !(keys[p - 1].0 < kx.0 || (keys[p - 1].0 == kx.0 && keys[p - 1].1 <= kx.1))
            invariant
                0 <= p <= out@.len(),
                keys@.len() == out@.len(),
                forall|q: int| 0 <= q < out@.len() ==> (#[trigger] keys@[q].0 as int, keys@[q].1 as int)
                    == sort_key(ops, bs, pl, strategy, out@[q]),
                (kx.0 as int, kx.1 as int) == sort_key(ops, bs, pl, strategy, x),
                insertion_point(out@, x, ops, bs, pl, strategy) == insertion_point(out@.take(p as int), x, ops, bs, pl, strategy),
            decreases p,
        {
            proof {
                assert(out@.take(p as int).drop_last() =~= out@.take(p - 1));
                assert(out@.take(p as int).last() == out@[p - 1]);
            }
            p = p - 1;
        }
        proof {
            if p > 0 {
                assert(out@.take(p as int).last() == out@[p - 1]);
            }
            assert(insertion_point(out@.take(p as int), x, ops, bs, pl, strategy) == p);
            lemma_insertion_point(out@, x, ops, bs, pl, strategy);
            assert(ids@.take(i + 1).drop_last() =~= ids@.take(i as int));
            assert(ids@.take(i + 1).last() == x);
        }
        let ghost out0 = out@;
        let ghost keys0 = keys@;
        out.insert(p, x);
        keys.insert(p, kx);
        proof {
            assert(out@ =~= out0.take(p as int).push(x) + out0.skip(p as int));
            assert forall|q: int| 0 <= q < out@.len() implies (#[trigger] keys@[q].0 as int, keys@[q].1 as int)
                == sort_key(ops, bs, pl, strategy, out@[q]) by {
                if q < p {
                    assert(keys@[q] == keys0[q] && out@[q] == out0[q]);
                } else if q > p {
                    assert(keys@[q] == keys0[q - 1] && out@[q] == out0[q - 1]);
                }
            }
        }
        i = i + 1;
    }
    proof {
        assert(ids@.take(n as int) =~= ids@);
    }
    out
}

/// Shuffles the ids with `rand::seq::SliceRandom::shuffle`, drawing from
/// the thread-local generator `rand::rng()`. Claimed: the result holds the
/// same ids, each as often as before. Which permutation comes out is left
/// open: it rests on chance.
#[verifier::external_body]
fn shuffle_ids(ids: &mut Vec<OperationId>)
    ensures
        final(ids)@.to_multiset() == old(ids)@.to_multiset(),
{
    ids.shuffle(&mut rand::rng());
}

/// Reorders the queue by the strategy: a stable sort by the strategy's key,
/// or a random permutation for `Random`.
pub fn sort_queue_by_strategy(
    operations: &Vec<Operation>,
    batches: &Vec<Batch>,
    critical_path_data: &Option<CriticalPathData>,
    queue: &mut VecDeque<OperationId>,
    strategy: SortStrategy,
)
    requires
        !(strategy is Random) ==> keys_computable(operations@, batches@, path_lengths_of(*critical_path_data), strategy, old(queue)@),
        strategy is LongestCriticalPathFirst ==> critical_path_data is Some,
    ensures
        final(queue)@.to_multiset() == old(queue)@.to_multiset(),
        !(strategy is Random) ==> final(queue)@
            == stable_sort_by_key(old(queue)@, operations@, batches@, path_lengths_of(*critical_path_data), strategy),
{
    let ghost q0 = queue@;
    let mut vec: Vec<OperationId> = Vec::new();
    loop
        invariant
            vec@ + queue@ == q0,
        ensures
            vec@ == q0,
        decreases queue@.len(),
    {
        match queue.pop_front() {
            Some(id) => {
                let ghost q1 = queue@;
                vec.push(id);
                proof {
                    assert(vec@ + queue@ =~= q0);
                }
            },
            None => {
                proof {
                    assert(vec@ =~= q0);
                }
                break;
            },
        }
    }
    match strategy {
        SortStrategy::Random => {
            shuffle_ids(&mut vec);
        },
        _ => {
            let sorted = sort_ids_by_key(operations, batches, critical_path_data, strategy, &vec);
            proof {
                lemma_stable_sort(vec@, operations@, batches@, path_lengths_of(*critical_path_data), strategy);
            }
            vec = sorted;
        },
    }
    let ghost v = vec@;
    let n = vec.len();
    let mut i: usize = 0;
    while i < n
        invariant
            n == v.len(),
            vec@ == v,
            0 <= i <= n,
            queue@ == v.take(i as int),
        decreases n - i,
    {
        queue.push_back(vec[i]);
        proof {
            assert(v.take(i + 1) =~= v.take(i as int).push(v[i as int]));
        }
        i = i + 1;
    }
    proof {
        assert(v.take(n as int) =~= v);
    }
}

} // verus!
