use vstd::prelude::*;
use crate::job::{Batch, Operation};
use crate::time::Time;

verus! {

/// Sum of the durations of the operations below `m` whose flag is set.
pub open spec fn sum_dur(ops: Seq<Operation>, flags: Seq<bool>, m: int) -> int
    decreases m,
{
    if m <= 0 {
        0
    } else {
        sum_dur(ops, flags, m - 1) + if flags[m - 1] { ops[m - 1].duration as int } else { 0 }
    }
}

/// Sum of the durations of the operations below `m`.
pub open spec fn total_dur(ops: Seq<Operation>, m: int) -> int
    decreases m,
{
    if m <= 0 {
        0
    } else {
        total_dur(ops, m - 1) + ops[m - 1].duration
    }
}

/// Sum of the durations of all operations.
pub open spec fn total_duration(ops: Seq<Operation>) -> int {
    total_dur(ops, ops.len() as int)
}

/// The latest batch start time (0 for no batches).
pub open spec fn max_batch_start(batches: Seq<Batch>) -> int
    decreases batches.len(),
{
    if batches.len() == 0 {
        0
    } else {
        let m = max_batch_start(batches.drop_last());
        if batches.last().start_time > m { batches.last().start_time as int } else { m }
    }
}

/// Largest value of `vals` at the given indices (0 for none).
pub open spec fn max_over(vals: Seq<Time>, idxs: Seq<usize>) -> int
    decreases idxs.len(),
{
    if idxs.len() == 0 {
        0
    } else {
        let m = max_over(vals, idxs.drop_last());
        let x = vals[idxs.last() as int] as int;
        if x > m { x } else { m }
    }
}

/// Smallest value of `vals` at the given indices (`dflt` for none).
pub open spec fn min_or(vals: Seq<Time>, idxs: Seq<usize>, dflt: int) -> int
    decreases idxs.len(),
{
    if idxs.len() == 0 {
        dflt
    } else if idxs.len() == 1 {
        vals[idxs[0] as int] as int
    } else {
        let m = min_or(vals, idxs.drop_last(), dflt);
        let x = vals[idxs.last() as int] as int;
        if x < m { x } else { m }
    }
}

/// Largest value of a sequence (0 for none).
pub open spec fn seq_max(vals: Seq<Time>) -> int
    decreases vals.len(),
{
    if vals.len() == 0 {
        0
    } else {
        let m = seq_max(vals.drop_last());
        if vals.last() > m { vals.last() as int } else { m }
    }
}

/// `a - b`, or 0 when `b > a`.
pub open spec fn sat_sub(a: int, b: int) -> int {
    if a >= b { a - b } else { 0 }
}

pub proof fn lemma_sum_dur_le_total(ops: Seq<Operation>, flags: Seq<bool>, m: int)
    ensures
        0 <= sum_dur(ops, flags, m) <= total_dur(ops, m),
        0 <= total_dur(ops, m),
    decreases m,
{
    if m > 0 {
        lemma_sum_dur_le_total(ops, flags, m - 1);
    }
}

pub proof fn lemma_sum_dur_set(ops: Seq<Operation>, flags: Seq<bool>, m: int, w: int)
    requires
        0 <= w < flags.len(),
        !flags[w],
        m <= flags.len(),
    ensures
        sum_dur(ops, flags.update(w, true), m) == sum_dur(ops, flags, m) + if w < m { ops[w].duration as int } else { 0 },
    decreases m,
{
    if m > 0 {
        lemma_sum_dur_set(ops, flags, m - 1, w);
    }
}

pub proof fn lemma_sum_dur_ext(ops: Seq<Operation>, f1: Seq<bool>, f2: Seq<bool>, m: int)
    requires
        forall|i: int| 0 <= i < m ==> f1[i] == f2[i],
    ensures
        sum_dur(ops, f1, m) == sum_dur(ops, f2, m),
    decreases m,
{
    if m > 0 {
        lemma_sum_dur_ext(ops, f1, f2, m - 1);
    }
}

pub proof fn lemma_max_batch_start_nonneg(batches: Seq<Batch>)
    ensures
        max_batch_start(batches) >= 0,
    decreases batches.len(),
{
    if batches.len() > 0 {
        lemma_max_batch_start_nonneg(batches.drop_last());
    }
}

pub proof fn lemma_max_batch_start(batches: Seq<Batch>, b: int)
    requires
        0 <= b < batches.len(),
    ensures
        batches[b].start_time <= max_batch_start(batches),
    decreases batches.len(),
{
    if b < batches.len() - 1 {
        lemma_max_batch_start(batches.drop_last(), b);
        assert(batches.drop_last()[b] == batches[b]);
    }
}

pub proof fn lemma_max_over_take(vals: Seq<Time>, idxs: Seq<usize>, j: int)
    requires
        0 <= j < idxs.len(),
    ensures
        max_over(vals, idxs.take(j + 1)) == if vals[idxs[j] as int] > max_over(vals, idxs.take(j)) {
            vals[idxs[j] as int] as int
        } else {
            max_over(vals, idxs.take(j))
        },
{
    assert(idxs.take(j + 1).drop_last() =~= idxs.take(j));
}

pub proof fn lemma_min_or_take(vals: Seq<Time>, idxs: Seq<usize>, j: int, dflt: int)
    requires
        0 <= j < idxs.len(),
    ensures
        min_or(vals, idxs.take(j + 1), dflt) == if j == 0 {
            vals[idxs[0] as int] as int
        } else if vals[idxs[j] as int] < min_or(vals, idxs.take(j), dflt) {
            vals[idxs[j] as int] as int
        } else {
            min_or(vals, idxs.take(j), dflt)
        },
{
    assert(idxs.take(j + 1).drop_last() =~= idxs.take(j));
}

pub proof fn lemma_seq_max_take(vals: Seq<Time>, j: int)
    requires
        0 <= j < vals.len(),
    ensures
        seq_max(vals.take(j + 1)) == if vals[j] > seq_max(vals.take(j)) { vals[j] as int } else { seq_max(vals.take(j)) },
{
    assert(vals.take(j + 1).drop_last() =~= vals.take(j));
}

/// `max_over` only reads the values at its indices.
pub proof fn lemma_max_over_frame(v1: Seq<Time>, v2: Seq<Time>, idxs: Seq<usize>)
    requires
        forall|k: int| 0 <= k < idxs.len() ==> v1[#[trigger] idxs[k] as int] == v2[idxs[k] as int],
    ensures
        max_over(v1, idxs) == max_over(v2, idxs),
    decreases idxs.len(),
{
    if idxs.len() > 0 {
        assert forall|k: int| 0 <= k < idxs.drop_last().len() implies v1[#[trigger] idxs.drop_last()[k] as int] == v2[idxs.drop_last()[k] as int] by {
            assert(idxs.drop_last()[k] == idxs[k]);
        }
        lemma_max_over_frame(v1, v2, idxs.drop_last());
    }
}

/// `min_or` only reads the values at its indices.
pub proof fn lemma_min_or_frame(v1: Seq<Time>, v2: Seq<Time>, idxs: Seq<usize>, dflt: int)
    requires
        forall|k: int| 0 <= k < idxs.len() ==> v1[#[trigger] idxs[k] as int] == v2[idxs[k] as int],
    ensures
        min_or(v1, idxs, dflt) == min_or(v2, idxs, dflt),
    decreases idxs.len(),
{
    if idxs.len() > 1 {
        assert forall|k: int| 0 <= k < idxs.drop_last().len() implies v1[#[trigger] idxs.drop_last()[k] as int] == v2[idxs.drop_last()[k] as int] by {
            assert(idxs.drop_last()[k] == idxs[k]);
        }
        lemma_min_or_frame(v1, v2, idxs.drop_last(), dflt);
    }
}

/// `max_over` stays below any bound of the values it reads.
pub proof fn lemma_max_over_bound(vals: Seq<Time>, idxs: Seq<usize>, c: int)
    requires
        c >= 0,
        forall|k: int| 0 <= k < idxs.len() ==> vals[#[trigger] idxs[k] as int] <= c,
    ensures
        0 <= max_over(vals, idxs) <= c,
    decreases idxs.len(),
{
    if idxs.len() > 0 {
        assert forall|k: int| 0 <= k < idxs.drop_last().len() implies vals[#[trigger] idxs.drop_last()[k] as int] <= c by {
            assert(idxs.drop_last()[k] == idxs[k]);
        }
        lemma_max_over_bound(vals, idxs.drop_last(), c);
    }
}

/// `max_over` is the largest value read, and 0 when nothing is read.
pub proof fn lemma_max_over_is_max(vals: Seq<Time>, idxs: Seq<usize>)
    ensures
        forall|k: int| 0 <= k < idxs.len() ==> vals[#[trigger] idxs[k] as int] <= max_over(vals, idxs),
        idxs.len() == 0 ==> max_over(vals, idxs) == 0,
        idxs.len() > 0 ==> exists|k: int| 0 <= k < idxs.len() && max_over(vals, idxs) == vals[#[trigger] idxs[k] as int],
    decreases idxs.len(),
{
    if idxs.len() > 0 {
        let d = idxs.drop_last();
        lemma_max_over_is_max(vals, d);
        assert forall|k: int| 0 <= k < idxs.len() implies vals[#[trigger] idxs[k] as int] <= max_over(vals, idxs) by {
            if k < d.len() {
                assert(d[k] == idxs[k]);
            }
        }
        let last = idxs.len() - 1;
        if vals[idxs[last] as int] > max_over(vals, d) {
            assert(max_over(vals, idxs) == vals[idxs[last] as int]);
        } else if d.len() == 0 {
            assert(max_over(vals, idxs) == 0);
            assert(max_over(vals, idxs) == vals[idxs[last] as int]);
        } else {
            let k = choose|k: int| 0 <= k < d.len() && max_over(vals, d) == vals[#[trigger] d[k] as int];
            assert(d[k] == idxs[k]);
            assert(max_over(vals, idxs) == vals[idxs[k] as int]);
        }
    }
}

/// `min_or` is the smallest value read, and `dflt` when nothing is read.
pub proof fn lemma_min_or_is_min(vals: Seq<Time>, idxs: Seq<usize>, dflt: int)
    ensures
        forall|k: int| 0 <= k < idxs.len() ==> min_or(vals, idxs, dflt) <= vals[#[trigger] idxs[k] as int],
        idxs.len() == 0 ==> min_or(vals, idxs, dflt) == dflt,
        idxs.len() > 0 ==> exists|k: int| 0 <= k < idxs.len() && min_or(vals, idxs, dflt) == vals[#[trigger] idxs[k] as int],
    decreases idxs.len(),
{
    if idxs.len() > 1 {
        let d = idxs.drop_last();
        lemma_min_or_is_min(vals, d, dflt);
        assert forall|k: int| 0 <= k < idxs.len() implies min_or(vals, idxs, dflt) <= vals[#[trigger] idxs[k] as int] by {
            if k < d.len() {
                assert(d[k] == idxs[k]);
            }
        }
        let last = idxs.len() - 1;
        if vals[idxs[last] as int] < min_or(vals, d, dflt) {
            assert(min_or(vals, idxs, dflt) == vals[idxs[last] as int]);
        } else {
            let k = choose|k: int| 0 <= k < d.len() && min_or(vals, d, dflt) == vals[#[trigger] d[k] as int];
            assert(d[k] == idxs[k]);
            assert(min_or(vals, idxs, dflt) == vals[idxs[k] as int]);
        }
    } else if idxs.len() == 1 {
        assert(min_or(vals, idxs, dflt) == vals[idxs[0] as int]);
    }
}

/// `seq_max` is the largest value, and 0 for an empty sequence.
pub proof fn lemma_seq_max_is_max(vals: Seq<Time>)
    ensures
        forall|i: int| 0 <= i < vals.len() ==> #[trigger] vals[i] <= seq_max(vals),
        vals.len() == 0 ==> seq_max(vals) == 0,
        vals.len() > 0 ==> exists|i: int| 0 <= i < vals.len() && seq_max(vals) == #[trigger] vals[i],
    decreases vals.len(),
{
    if vals.len() > 0 {
        let d = vals.drop_last();
        lemma_seq_max_is_max(d);
        assert forall|i: int| 0 <= i < vals.len() implies #[trigger] vals[i] <= seq_max(vals) by {
            if i < d.len() {
                assert(d[i] == vals[i]);
            }
        }
        let last = vals.len() - 1;
        if vals.last() > seq_max(d) || d.len() == 0 {
            assert(seq_max(vals) == vals[last]);
        } else {
            let i = choose|i: int| 0 <= i < d.len() && seq_max(d) == #[trigger] d[i];
            assert(d[i] == vals[i]);
            assert(seq_max(vals) == vals[i]);
        }
    }
}

/// Number of set flags below `m`.
pub open spec fn count_true(flags: Seq<bool>, m: int) -> int
    decreases m,
{
    if m <= 0 {
        0
    } else {
        count_true(flags, m - 1) + if flags[m - 1] { 1int } else { 0int }
    }
}

pub proof fn lemma_count_true_bounds(flags: Seq<bool>, m: int)
    requires
        0 <= m,
    ensures
        0 <= count_true(flags, m) <= m,
    decreases m,
{
    if m > 0 {
        lemma_count_true_bounds(flags, m - 1);
    }
}

pub proof fn lemma_count_true_set(flags: Seq<bool>, m: int, w: int)
    requires
        0 <= w < flags.len(),
        !flags[w],
        m <= flags.len(),
    ensures
        count_true(flags.update(w, true), m) == count_true(flags, m) + if w < m { 1int } else { 0int },
    decreases m,
{
    if m > 0 {
        lemma_count_true_set(flags, m - 1, w);
    }
}

} // verus!
