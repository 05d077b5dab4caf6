use vstd::prelude::*;
use crate::time::Time;
use std::collections::VecDeque;
use crate::indices::OperationId;
use crate::strategy::{deterministic_strategies, SortStrategy};
use crate::graph::has_topological_order;
use crate::sums::total_duration;
use crate::placement::horizon;
use crate::serial::groups_staffed;
use crate::schedule::Schedule;
use crate::best::{
    lemma_copy_same_problem, lemma_parallel_run_copy, lemma_serial_run_copy, parallel_run_of, parallel_run_takes,
    serial_run_of, serial_run_takes,
};

verus! {

/// Running totals of one strategy over several problems: the sum of its
/// finish times, the sum of its places (1 for the fastest) and the number
/// of problems it solved.
pub struct StrategyStats {
    pub strategy: SortStrategy,
    pub total_time: u64,
    pub rank_sum: usize,
    pub run_count: usize,
}

impl StrategyStats {
    pub fn new(strategy: SortStrategy) -> (s: Self)
        ensures
            s.strategy == strategy,
            s.total_time == 0,
            s.rank_sum == 0,
            s.run_count == 0,
    {
        Self { strategy: strategy, total_time: 0, rank_sum: 0, run_count: 0 }
    }
}

/// Insert `x` after the last entry whose time is not greater.
pub open spec fn insert_by_time(s: Seq<(usize, Time)>, x: (usize, Time)) -> Seq<(usize, Time)>
    decreases s.len(),
{
    if s.len() == 0 {
        seq![x]
    } else if s.last().1 <= x.1 {
        s.push(x)
    } else {
        insert_by_time(s.drop_last(), x).push(s.last())
    }
}

/// The stable sort of `s` by time: entries with equal times keep their order.
pub open spec fn sort_by_time(s: Seq<(usize, Time)>) -> Seq<(usize, Time)>
    decreases s.len(),
{
    if s.len() == 0 {
        s
    } else {
        insert_by_time(sort_by_time(s.drop_last()), s.last())
    }
}

/// Where `insert_by_time` puts `x`.
pub open spec fn time_insertion_point(s: Seq<(usize, Time)>, x: (usize, Time)) -> int
    decreases s.len(),
{
    if s.len() == 0 {
        0
    } else if s.last().1 <= x.1 {
        s.len() as int
    } else {
        time_insertion_point(s.drop_last(), x)
    }
}

/// Times never decrease along `s`.
pub open spec fn sorted_by_time(s: Seq<(usize, Time)>) -> bool {
    forall|i: int, j: int| 0 <= i < j < s.len() ==> (#[trigger] s[i]).1 <= (#[trigger] s[j]).1
}

proof fn lemma_time_insertion_point(s: Seq<(usize, Time)>, x: (usize, Time))
    ensures
        0 <= time_insertion_point(s, x) <= s.len(),
        insert_by_time(s, x) == s.take(time_insertion_point(s, x)).push(x) + s.skip(time_insertion_point(s, x)),
    decreases s.len(),
{
    if s.len() > 0 {
        lemma_time_insertion_point(s.drop_last(), x);
        let p = time_insertion_point(s, x);
        if s.last().1 <= x.1 {
            assert(s.take(p) =~= s);
            assert(s.skip(p) =~= Seq::<(usize, Time)>::empty());
            assert(insert_by_time(s, x) =~= s.take(p).push(x) + s.skip(p));
        } else {
            let d = s.drop_last();
            assert(d.take(p) =~= s.take(p));
            assert(s.skip(p) =~= d.skip(p).push(s.last()));
            assert(insert_by_time(s, x) =~= s.take(p).push(x) + s.skip(p));
        }
    } else {
        assert(insert_by_time(s, x) =~= s.take(0).push(x) + s.skip(0));
    }
}

proof fn lemma_insert_by_time(s: Seq<(usize, Time)>, x: (usize, Time))
    requires
        sorted_by_time(s),
    ensures
        sorted_by_time(insert_by_time(s, x)),
        insert_by_time(s, x).to_multiset() == s.to_multiset().insert(x),
    decreases s.len(),
{
    broadcast use vstd::seq_lib::group_seq_properties;
    broadcast use vstd::multiset::group_multiset_axioms;
    let r = insert_by_time(s, x);
    if s.len() == 0 {
        assert(r.to_multiset() =~= s.to_multiset().insert(x));
    } else {
        let d = s.drop_last();
        assert(sorted_by_time(d)) by {
            assert forall|i: int, j: int| 0 <= i < j < d.len() implies (#[trigger] d[i]).1 <= (#[trigger] d[j]).1 by {
                assert(d[i] == s[i] && d[j] == s[j]);
            }
        }
        assert(s =~= d.push(s.last()));
        if s.last().1 <= x.1 {
            assert forall|i: int, j: int| 0 <= i < j < r.len() implies (#[trigger] r[i]).1 <= (#[trigger] r[j]).1 by {
                if j == s.len() {
                    if i < s.len() - 1 {
                        assert(s[i].1 <= s[s.len() - 1].1);
                    }
                } else {
                    assert(r[i] == s[i] && r[j] == s[j]);
                }
            }
            assert(r.to_multiset() =~= s.to_multiset().insert(x));
        } else {
            lemma_insert_by_time(d, x);
            let r0 = insert_by_time(d, x);
            lemma_time_insertion_point(d, x);
            let last = s.last();
            assert forall|i: int| 0 <= i < r0.len() implies (#[trigger] r0[i]).1 <= last.1 by {
                let p = time_insertion_point(d, x);
                if i < p {
                    assert(r0[i] == d[i]);
                    assert(s[i] == d[i]);
                } else if i == p {
                    assert(r0[i] == x);
                } else {
                    assert(r0[i] == d[i - 1]);
                    assert(s[i - 1] == d[i - 1]);
                }
            }
            assert forall|i: int, j: int| 0 <= i < j < r.len() implies (#[trigger] r[i]).1 <= (#[trigger] r[j]).1 by {
                if j == r.len() - 1 {
                    assert(r[i] == r0[i]);
                } else {
                    assert(r[i] == r0[i] && r[j] == r0[j]);
                }
            }
            assert(r.to_multiset() =~= s.to_multiset().insert(x));
        }
    }
}

/// Entries are ordered by time, and entries with equal times by index.
pub open spec fn sorted_by_time_then_index(s: Seq<(usize, Time)>) -> bool {
    forall|i: int, j: int| 0 <= i < j < s.len()
        ==> (#[trigger] s[i]).1 < (#[trigger] s[j]).1 || (s[i].1 == s[j].1 && s[i].0 < s[j].0)
}

proof fn lemma_time_insertion_sides(s: Seq<(usize, Time)>, x: (usize, Time))
    ensures
        forall|i: int| time_insertion_point(s, x) <= i < s.len() ==> (#[trigger] s[i]).1 > x.1,
        time_insertion_point(s, x) > 0 ==> s[time_insertion_point(s, x) - 1].1 <= x.1,
    decreases s.len(),
{
    lemma_time_insertion_point(s, x);
    if s.len() > 0 {
        lemma_time_insertion_sides(s.drop_last(), x);
        lemma_time_insertion_point(s.drop_last(), x);
        if !(s.last().1 <= x.1) {
            let d = s.drop_last();
            assert forall|i: int| time_insertion_point(s, x) <= i < s.len() implies (#[trigger] s[i]).1 > x.1 by {
                if i < d.len() {
                    assert(s[i] == d[i]);
                }
            }
            if time_insertion_point(s, x) > 0 {
                assert(s[time_insertion_point(s, x) - 1] == d[time_insertion_point(d, x) - 1]);
            }
        }
    }
}

/// Sorting keeps the entries: each entry of the result is one of the input.
proof fn lemma_sort_by_time_members(s: Seq<(usize, Time)>)
    ensures
        forall|i: int| 0 <= i < sort_by_time(s).len() ==> s.contains(#[trigger] sort_by_time(s)[i]),
{
    broadcast use vstd::multiset::group_multiset_axioms;
    let t = sort_by_time(s);
    lemma_sort_by_time(s);
    t.to_multiset_ensures();
    s.to_multiset_ensures();
    assert forall|i: int| 0 <= i < t.len() implies s.contains(#[trigger] t[i]) by {
        assert(t.contains(t[i]));
        assert(t.to_multiset().count(t[i]) > 0);
        assert(s.to_multiset().count(t[i]) > 0);
    }
}

/// When the indices of the entries increase, sorting by time orders equal
/// times by index: the earlier entry keeps the better place.
proof fn lemma_sort_by_time_stable(s: Seq<(usize, Time)>)
    requires
        forall|i: int, j: int| 0 <= i < j < s.len() ==> (#[trigger] s[i]).0 < (#[trigger] s[j]).0,
    ensures
        sorted_by_time_then_index(sort_by_time(s)),
    decreases s.len(),
{
    if s.len() > 0 {
        let d = s.drop_last();
        let x = s.last();
        assert forall|i: int, j: int| 0 <= i < j < d.len() implies (#[trigger] d[i]).0 < (#[trigger] d[j]).0 by {
            assert(d[i] == s[i] && d[j] == s[j]);
        }
        lemma_sort_by_time_stable(d);
        lemma_sort_by_time_members(d);
        let t = sort_by_time(d);
        lemma_time_insertion_point(t, x);
        lemma_time_insertion_sides(t, x);
        let p = time_insertion_point(t, x);
        let r = sort_by_time(s);
        assert(r == t.take(p).push(x) + t.skip(p));
        // every earlier entry has a smaller index than the last one
        assert forall|i: int| 0 <= i < t.len() implies (#[trigger] t[i]).0 < x.0 by {
            assert(d.contains(t[i]));
            let k = choose|k: int| 0 <= k < d.len() && d[k] == t[i];
            assert(s[k] == d[k]);
            assert(s[s.len() - 1] == x);
        }
        assert forall|i: int, j: int| 0 <= i < j < r.len() implies
            (#[trigger] r[i]).1 < (#[trigger] r[j]).1 || (r[i].1 == r[j].1 && r[i].0 < r[j].0) by {
            if j < p {
                assert(r[i] == t[i] && r[j] == t[j]);
            } else if j == p {
                assert(r[i] == t[i] && r[j] == x);
                if p > 0 && i < p - 1 {
                    assert(t[i].1 < t[p - 1].1 || t[i].1 == t[p - 1].1);
                }
            } else if i < p {
                assert(r[i] == t[i] && r[j] == t[j - 1]);
            } else if i == p {
                assert(r[i] == x && r[j] == t[j - 1]);
            } else {
                assert(r[i] == t[i - 1] && r[j] == t[j - 1]);
            }
        }
    }
}

/// Sorting by time orders the entries by time and keeps every entry as
/// often as it occurs.
pub proof fn lemma_sort_by_time(s: Seq<(usize, Time)>)
    ensures
        sorted_by_time(sort_by_time(s)),
        sort_by_time(s).to_multiset() == s.to_multiset(),
    decreases s.len(),
{
    broadcast use vstd::seq_lib::group_seq_properties;
    if s.len() > 0 {
        lemma_sort_by_time(s.drop_last());
        lemma_insert_by_time(sort_by_time(s.drop_last()), s.last());
        assert(s =~= s.drop_last().push(s.last()));
    }
}

/// Sorts the (strategy, time) entries by time, stably.
pub fn sort_results_by_time(results: &mut Vec<(usize, Time)>)
    ensures
        final(results)@ == sort_by_time(old(results)@),
{
    let mut out: Vec<(usize, Time)> = Vec::new();
    let n = results.len();
    let mut i: usize = 0;
    while i < n
        invariant
            n == old(results)@.len(),
            results@ == old(results)@,
            0 <= i <= n,
            out@ == sort_by_time(results@.take(i as int)),
        decreases n - i,
    {
        let x = results[i];
        let mut p: usize = out.len();
        proof {
            assert(out@.take(p as int) =~= out@);
        }
        while p > 0 && out[p - 1].1 > x.1
            invariant
                0 <= p <= out@.len(),
                time_insertion_point(out@, x) == time_insertion_point(out@.take(p as int), x),
            decreases p,
        {
            proof {
                assert(out@.take(p as int).drop_last() =~= out@.take(p - 1));
                assert(out@.take(p as int).last() == out@[p - 1]);
            }
            p = p - 1;
        }
        proof {
            if p > 0 {
                assert(out@.take(p as int).last() == out@[p - 1]);
            }
            assert(time_insertion_point(out@.take(p as int), x) == p);
            lemma_time_insertion_point(out@, x);
            assert(results@.take(i + 1).drop_last() =~= results@.take(i as int));
            assert(results@.take(i + 1).last() == x);
        }
        let ghost out0 = out@;
        out.insert(p, x);
        proof {
            assert(out@ =~= out0.take(p as int).push(x) + out0.skip(p as int));
        }
        i = i + 1;
    }
    proof {
        assert(results@.take(n as int) =~= results@);
    }
    *results = out;
}

/// Sum of the times of the entries of strategy `i` among the first `k`.
pub open spec fn time_for(s: Seq<(usize, Time)>, i: usize, k: int) -> int
    decreases k,
{
    if k <= 0 {
        0
    } else {
        time_for(s, i, k - 1) + if s[k - 1].0 == i { s[k - 1].1 as int } else { 0 }
    }
}

/// Sum of the places (position plus one) of the entries of strategy `i`
/// among the first `k`.
pub open spec fn rank_for(s: Seq<(usize, Time)>, i: usize, k: int) -> int
    decreases k,
{
    if k <= 0 {
        0
    } else {
        rank_for(s, i, k - 1) + if s[k - 1].0 == i { k } else { 0 }
    }
}

/// Number of the entries of strategy `i` among the first `k`.
pub open spec fn count_for(s: Seq<(usize, Time)>, i: usize, k: int) -> int
    decreases k,
{
    if k <= 0 {
        0
    } else {
        count_for(s, i, k - 1) + if s[k - 1].0 == i { 1int } else { 0 }
    }
}

proof fn lemma_for_nonneg(s: Seq<(usize, Time)>, i: usize, k: int)
    ensures
        0 <= time_for(s, i, k),
        0 <= rank_for(s, i, k),
        0 <= count_for(s, i, k),
    decreases k,
{
    if k > 0 {
        lemma_for_nonneg(s, i, k - 1);
    }
}

proof fn lemma_for_mono(s: Seq<(usize, Time)>, i: usize, k: int, m: int)
    requires
        0 <= k <= m,
    ensures
        0 <= time_for(s, i, k) <= time_for(s, i, m),
        0 <= rank_for(s, i, k) <= rank_for(s, i, m),
        0 <= count_for(s, i, k) <= count_for(s, i, m),
    decreases m - k,
{
    lemma_for_nonneg(s, i, k);
    if k < m {
        lemma_for_mono(s, i, k, m - 1);
    }
}

/// Adds to each strategy's totals its times, places and number of entries,
/// the places taken after sorting the entries by time.
pub fn accumulate(results: &mut Vec<(usize, Time)>, stats: &mut Vec<StrategyStats>)
    requires
        forall|k: int| 0 <= k < old(results)@.len() ==> (#[trigger] old(results)@[k]).0 < old(stats)@.len(),
        forall|i: int| 0 <= i < old(stats)@.len() ==> {
            let s = sort_by_time(old(results)@);
            let st = #[trigger] old(stats)@[i];
            &&& st.total_time + time_for(s, i as usize, s.len() as int) <= u64::MAX
            &&& st.rank_sum + rank_for(s, i as usize, s.len() as int) <= usize::MAX
            &&& st.run_count + count_for(s, i as usize, s.len() as int) <= usize::MAX
        },
    ensures
        final(results)@ == sort_by_time(old(results)@),
        final(stats)@.len() == old(stats)@.len(),
        forall|i: int| 0 <= i < old(stats)@.len() ==> {
            let s = final(results)@;
            let st = #[trigger] final(stats)@[i];
            let st0 = old(stats)@[i];
            &&& st.strategy == st0.strategy
            &&& st.total_time == st0.total_time + time_for(s, i as usize, s.len() as int)
            &&& st.rank_sum == st0.rank_sum + rank_for(s, i as usize, s.len() as int)
            &&& st.run_count == st0.run_count + count_for(s, i as usize, s.len() as int)
        },
{
    proof {
        lemma_sort_by_time(old(results)@);
        let s = sort_by_time(old(results)@);
        assert forall|k: int| 0 <= k < s.len() implies (#[trigger] s[k]).0 < old(stats)@.len() by {
            assert(s.to_multiset().count(s[k]) > 0) by {
                s.to_multiset_ensures();
                assert(s.contains(s[k]));
            }
            old(results)@.to_multiset_ensures();
            s.to_multiset_ensures();
            assert(old(results)@.contains(s[k]));
        }
    }
    sort_results_by_time(results);
    let ghost stats0 = stats@;
    let ghost s = results@;
    let n = results.len();
    let stats_len = stats.len();
    let mut r: usize = 0;
    while r < n
        invariant
            s == results@,
            n == s.len(),
            0 <= r <= n,
            stats@.len() == stats0.len(),
            stats0.len() == stats_len,
            forall|k: int| 0 <= k < s.len() ==> (#[trigger] s[k]).0 < stats0.len(),
            forall|i: int| 0 <= i < stats0.len() ==> {
                let st = #[trigger] stats0[i];
                &&& st.total_time + time_for(s, i as usize, s.len() as int) <= u64::MAX
                &&& st.rank_sum + rank_for(s, i as usize, s.len() as int) <= usize::MAX
                &&& st.run_count + count_for(s, i as usize, s.len() as int) <= usize::MAX
            },
            forall|i: int| 0 <= i < stats0.len() ==> {
                let st = #[trigger] stats@[i];
                let st0 = stats0[i];
                &&& st.strategy == st0.strategy
                &&& st.total_time == st0.total_time + time_for(s, i as usize, r as int)
                &&& st.rank_sum == st0.rank_sum + rank_for(s, i as usize, r as int)
                &&& st.run_count == st0.run_count + count_for(s, i as usize, r as int)
            },
        decreases n - r,
    {
        let (strategy_idx, time) = results[r];
        proof {
            assert(s[r as int].0 == strategy_idx);
            lemma_for_mono(s, strategy_idx, r + 1, s.len() as int);
            assert(stats0[strategy_idx as int].total_time + time_for(s, strategy_idx, s.len() as int) <= u64::MAX);
        }
        let ghost stats1 = stats@;
        stats[strategy_idx].total_time = stats[strategy_idx].total_time + time as u64;
        stats[strategy_idx].rank_sum = stats[strategy_idx].rank_sum + (r + 1);
        stats[strategy_idx].run_count = stats[strategy_idx].run_count + 1;
        proof {
            assert(time_for(s, strategy_idx, r + 1) == time_for(s, strategy_idx, r as int) + time);
            assert(rank_for(s, strategy_idx, r + 1) == rank_for(s, strategy_idx, r as int) + r + 1);
            assert(count_for(s, strategy_idx, r + 1) == count_for(s, strategy_idx, r as int) + 1);
            assert forall|i: int| 0 <= i < stats0.len() implies {
                let st = #[trigger] stats@[i];
                let st0 = stats0[i];
                &&& st.strategy == st0.strategy
                &&& st.total_time == st0.total_time + time_for(s, i as usize, r + 1)
                &&& st.rank_sum == st0.rank_sum + rank_for(s, i as usize, r + 1)
                &&& st.run_count == st0.run_count + count_for(s, i as usize, r + 1)
            } by {
                if i != strategy_idx {
                    assert(stats@[i] == stats1[i]);
                    assert(s[r as int].0 != i as usize);
                } else {
                    assert(i as usize == strategy_idx);
                }
            }
        }
        r = r + 1;
    }
}

proof fn lemma_unique_positions(s: Seq<(usize, Time)>, t: Seq<(usize, Time)>)
    requires
        s.to_multiset() == t.to_multiset(),
        forall|k: int| 0 <= k < t.len() ==> (#[trigger] t[k]).0 == k,
    ensures
        s.len() == t.len(),
        forall|k: int| 0 <= k < t.len() ==> s.contains(#[trigger] t[k]),
        forall|a: int| 0 <= a < s.len() ==> (#[trigger] s[a]) == t[s[a].0 as int] && s[a].0 < t.len(),
        forall|a: int, b: int| 0 <= a < s.len() && 0 <= b < s.len() && (#[trigger] s[a]).0 == (#[trigger] s[b]).0 ==> a == b,
{
    broadcast use vstd::seq_lib::group_seq_properties;
    broadcast use vstd::multiset::group_multiset_axioms;
    s.to_multiset_ensures();
    t.to_multiset_ensures();
    assert(s.len() == t.len()) by {
        assert(s.to_multiset().len() == t.to_multiset().len());
    }
    assert(t.no_duplicates()) by {
        assert forall|a: int, b: int| 0 <= a < t.len() && 0 <= b < t.len() && a != b implies t[a] != t[b] by {
            assert(t[a].0 == a && t[b].0 == b);
        }
    }
    t.lemma_multiset_has_no_duplicates();
    s.lemma_multiset_has_no_duplicates_conv();
    assert forall|k: int| 0 <= k < t.len() implies s.contains(#[trigger] t[k]) by {
        assert(t.to_multiset().count(t[k]) > 0);
    }
    assert forall|a: int| 0 <= a < s.len() implies (#[trigger] s[a]) == t[s[a].0 as int] && s[a].0 < t.len() by {
        assert(s.to_multiset().count(s[a]) > 0);
        assert(t.contains(s[a]));
        let k = choose|k: int| 0 <= k < t.len() && t[k] == s[a];
        assert(t[k].0 == k);
    }
    assert forall|a: int, b: int| 0 <= a < s.len() && 0 <= b < s.len() && (#[trigger] s[a]).0 == (#[trigger] s[b]).0 implies a == b by {
        assert(s[a] == t[s[a].0 as int]);
        assert(s[b] == t[s[b].0 as int]);
    }
}

proof fn lemma_for_unique(s: Seq<(usize, Time)>, i: usize, r: int, k: int)
    requires
        0 <= r < s.len(),
        s[r].0 == i,
        forall|q: int| 0 <= q < s.len() && q != r ==> (#[trigger] s[q]).0 != i,
        0 <= k <= s.len(),
    ensures
        count_for(s, i, k) == if r < k { 1int } else { 0 },
        rank_for(s, i, k) == if r < k { r + 1 } else { 0 },
        time_for(s, i, k) == if r < k { s[r].1 as int } else { 0 },
    decreases k,
{
    if k > 0 {
        lemma_for_unique(s, i, r, k - 1);
    }
}

proof fn lemma_for_absent(s: Seq<(usize, Time)>, i: usize, k: int)
    requires
        forall|q: int| 0 <= q < s.len() ==> (#[trigger] s[q]).0 != i,
        0 <= k <= s.len(),
    ensures
        count_for(s, i, k) == 0,
        rank_for(s, i, k) == 0,
        time_for(s, i, k) == 0,
    decreases k,
{
    if k > 0 {
        lemma_for_absent(s, i, k - 1);
    }
}

/// The place of strategy `i` once the entries `t` are sorted by time.
pub open spec fn place_in(t: Seq<(usize, Time)>, i: usize) -> int {
    rank_for(sort_by_time(t), i, sort_by_time(t).len() as int)
}

/// The time of strategy `i` among the entries `t`.
pub open spec fn time_in(t: Seq<(usize, Time)>, i: usize) -> int {
    time_for(sort_by_time(t), i, sort_by_time(t).len() as int)
}

/// The number of entries of strategy `i` among the entries `t`.
pub open spec fn count_in(t: Seq<(usize, Time)>, i: usize) -> int {
    count_for(sort_by_time(t), i, sort_by_time(t).len() as int)
}

/// With one entry per strategy `0..t.len()`, each listed strategy is
/// counted once with its own time and gets a place from 1 to the number of
/// entries; any other strategy is not counted.
pub proof fn lemma_ranked_at(t: Seq<(usize, Time)>, i: usize)
    requires
        forall|k: int| 0 <= k < t.len() ==> (#[trigger] t[k]).0 == k,
    ensures
        i < t.len() ==> count_in(t, i) == 1 && 1 <= place_in(t, i) <= t.len() && time_in(t, i) == t[i as int].1,
        i >= t.len() ==> count_in(t, i) == 0 && place_in(t, i) == 0 && time_in(t, i) == 0,
{
    let s = sort_by_time(t);
    lemma_sort_by_time(t);
    lemma_unique_positions(s, t);
    if i < t.len() {
        assert(t[i as int].0 == i);
        assert(s.contains(t[i as int]));
        let r = choose|r: int| 0 <= r < s.len() && s[r] == t[i as int];
        lemma_for_unique(s, i, r, s.len() as int);
    } else {
        assert forall|q: int| 0 <= q < s.len() implies (#[trigger] s[q]).0 != i by {
            assert(s[q].0 < t.len());
        }
        lemma_for_absent(s, i, s.len() as int);
    }
}

/// With one entry per strategy `0..t.len()`, two strategies never share a
/// place, and the faster one gets the better place.
pub proof fn lemma_ranked_pair(t: Seq<(usize, Time)>, i: usize, j: usize)
    requires
        forall|k: int| 0 <= k < t.len() ==> (#[trigger] t[k]).0 == k,
        i < t.len(),
        j < t.len(),
    ensures
        i != j ==> place_in(t, i) != place_in(t, j),
        t[i as int].1 < t[j as int].1 ==> place_in(t, i) < place_in(t, j),
        t[i as int].1 == t[j as int].1 && i < j ==> place_in(t, i) < place_in(t, j),
{
    let s = sort_by_time(t);
    lemma_sort_by_time(t);
    lemma_unique_positions(s, t);
    assert(t[i as int].0 == i && t[j as int].0 == j);
    assert(s.contains(t[i as int]) && s.contains(t[j as int]));
    let ri = choose|r: int| 0 <= r < s.len() && s[r] == t[i as int];
    let rj = choose|r: int| 0 <= r < s.len() && s[r] == t[j as int];
    lemma_for_unique(s, i, ri, s.len() as int);
    lemma_for_unique(s, j, rj, s.len() as int);
    if t[i as int].1 < t[j as int].1 && rj < ri {
        assert(s[rj].1 <= s[ri].1);
    }
    assert forall|a: int, b: int| 0 <= a < b < t.len() implies (#[trigger] t[a]).0 < (#[trigger] t[b]).0 by {}
    lemma_sort_by_time_stable(t);
    if t[i as int].1 == t[j as int].1 && i < j && rj < ri {
        assert(s[rj].1 < s[ri].1 || (s[rj].1 == s[ri].1 && s[rj].0 < s[ri].0));
    }
}

/// `stats` after one problem's results are added to `stats0`: when every
/// run succeeded, each of the first `count` strategies is counted once
/// more, adds its finish time, and gets a place from 1 to `count`, no two
/// the same place, a faster one a better place and, on equal times, the
/// one listed first the better place; the other entries and
/// every strategy name stay. When no run succeeded, nothing changes.
pub open spec fn recorded(stats0: Seq<StrategyStats>, stats: Seq<StrategyStats>, count: int, solved: bool) -> bool {
    &&& stats.len() == stats0.len()
    &&& !solved ==> stats == stats0
    &&& solved ==> {
        &&& forall|i: int| 0 <= i < stats0.len() ==> (#[trigger] stats[i]).strategy == stats0[i].strategy
        &&& forall|i: int| count <= i < stats0.len() ==> #[trigger] stats[i] == stats0[i]
        &&& forall|i: int| 0 <= i < count ==> {
            &&& (#[trigger] stats[i]).run_count == stats0[i].run_count + 1
            &&& stats0[i].rank_sum + 1 <= stats[i].rank_sum <= stats0[i].rank_sum + count
            &&& stats0[i].total_time <= stats[i].total_time <= stats0[i].total_time + Time::MAX
        }
        &&& forall|i: int, j: int| 0 <= i < count && 0 <= j < count && i != j
            ==> (#[trigger] stats[i]).rank_sum - stats0[i].rank_sum != (#[trigger] stats[j]).rank_sum - stats0[j].rank_sum
        &&& forall|i: int, j: int| 0 <= i < count && 0 <= j < count
            && (#[trigger] stats[i]).total_time - stats0[i].total_time < (#[trigger] stats[j]).total_time - stats0[j].total_time
            ==> stats[i].rank_sum - stats0[i].rank_sum < stats[j].rank_sum - stats0[j].rank_sum
        &&& forall|i: int, j: int| 0 <= i < j < count
            && (#[trigger] stats[i]).total_time - stats0[i].total_time == (#[trigger] stats[j]).total_time - stats0[j].total_time
            ==> stats[i].rank_sum - stats0[i].rank_sum < stats[j].rank_sum - stats0[j].rank_sum
    }
}

/// Totals that one more problem cannot overflow.
pub open spec fn room_for_one_more(stats: Seq<StrategyStats>) -> bool {
    forall|i: int| 0 <= i < stats.len() ==> {
        &&& (#[trigger] stats[i]).total_time + Time::MAX <= u64::MAX
        &&& stats[i].rank_sum + 10 <= usize::MAX
        &&& stats[i].run_count + 1 <= usize::MAX
    }
}

/// Accumulating one entry per strategy `0..t.len()` records them.
proof fn lemma_accumulated(t: Seq<(usize, Time)>, stats0: Seq<StrategyStats>, stats: Seq<StrategyStats>, solved: bool)
    requires
        forall|k: int| 0 <= k < t.len() ==> (#[trigger] t[k]).0 == k,
        solved ==> t.len() == 10,
        !solved ==> t.len() == 0,
        10 <= stats0.len() <= usize::MAX,
        stats.len() == stats0.len(),
        forall|i: int| 0 <= i < stats0.len() ==> {
            let st = #[trigger] stats[i];
            let st0 = stats0[i];
            &&& st.strategy == st0.strategy
            &&& st.total_time == st0.total_time + time_in(t, i as usize)
            &&& st.rank_sum == st0.rank_sum + place_in(t, i as usize)
            &&& st.run_count == st0.run_count + count_in(t, i as usize)
        },
    ensures
        recorded(stats0, stats, 10, solved),
        forall|i: int| 0 <= i < t.len() ==> #[trigger] stats[i].total_time == stats0[i].total_time + t[i].1,
{
    assert forall|i: int| 0 <= i < stats0.len() implies {
        let st = #[trigger] stats[i];
        let st0 = stats0[i];
        &&& (i < t.len() ==> st.run_count == st0.run_count + 1
            && st0.rank_sum + 1 <= st.rank_sum <= st0.rank_sum + t.len()
            && st.total_time == st0.total_time + t[i].1)
        &&& (i >= t.len() ==> st == st0)
    } by {
        lemma_ranked_at(t, i as usize);
    }
    if !solved {
        assert(stats =~= stats0);
    } else {
        assert forall|i: int, j: int| 0 <= i < 10 && 0 <= j < 10 && i != j implies
            (#[trigger] stats[i]).rank_sum - stats0[i].rank_sum != (#[trigger] stats[j]).rank_sum - stats0[j].rank_sum by {
            lemma_ranked_pair(t, i as usize, j as usize);
        }
        assert forall|i: int, j: int| 0 <= i < 10 && 0 <= j < 10
            && (#[trigger] stats[i]).total_time - stats0[i].total_time < (#[trigger] stats[j]).total_time - stats0[j].total_time
            implies stats[i].rank_sum - stats0[i].rank_sum < stats[j].rank_sum - stats0[j].rank_sum by {
            lemma_ranked_pair(t, i as usize, j as usize);
        }
        assert forall|i: int, j: int| 0 <= i < j < 10
            && (#[trigger] stats[i]).total_time - stats0[i].total_time == (#[trigger] stats[j]).total_time - stats0[j].total_time
            implies stats[i].rank_sum - stats0[i].rank_sum < stats[j].rank_sum - stats0[j].rank_sum by {
            lemma_ranked_pair(t, i as usize, j as usize);
        }
    }
}

/// Runs the serial schedule generation on a copy of `base_schedule` with
/// every strategy that does not depend on chance, in the order of
/// `SortStrategy::all_except_random`, and adds the results of the runs that
/// succeed to the totals of their strategies (entry `i` of `stats` for the
/// `i`-th strategy).
pub fn run_seed_serial(base_schedule: &Schedule, stats: &mut Vec<StrategyStats>)
    requires
        base_schedule.wf(),
        base_schedule.in_degrees_fit(),
        horizon(base_schedule.operations@, base_schedule.batches@, base_schedule.resource_groups@)
            + total_duration(base_schedule.operations@) < Time::MAX,
        base_schedule.strategy_fits(SortStrategy::LongestSuccessorDuration),
        old(stats)@.len() >= 10,
        room_for_one_more(old(stats)@),
    ensures
        recorded(old(stats)@, final(stats)@, 10,
            has_topological_order(base_schedule.operations@)
                && groups_staffed(base_schedule.operations@, base_schedule.resource_groups@)),
        has_topological_order(base_schedule.operations@)
            && groups_staffed(base_schedule.operations@, base_schedule.resource_groups@)
            ==> forall|i: int| 0 <= i < 10 ==> #[trigger] serial_run_takes(base_schedule, deterministic_strategies()[i],
                final(stats)@[i].total_time - old(stats)@[i].total_time),
{
    let ghost ok = has_topological_order(base_schedule.operations@)
        && groups_staffed(base_schedule.operations@, base_schedule.resource_groups@);
    let strategies = SortStrategy::all_except_random();
    let mut results: Vec<(usize, Time)> = Vec::new();
    let mut i: usize = 0;
    while i < strategies.len()
        invariant
            base_schedule.wf(),
            base_schedule.in_degrees_fit(),
            horizon(base_schedule.operations@, base_schedule.batches@, base_schedule.resource_groups@)
                + total_duration(base_schedule.operations@) < Time::MAX,
            base_schedule.strategy_fits(SortStrategy::LongestSuccessorDuration),
            ok == (has_topological_order(base_schedule.operations@)
                && groups_staffed(base_schedule.operations@, base_schedule.resource_groups@)),
            strategies@ == deterministic_strategies(),
            0 <= i <= 10,
            forall|k: int| 0 <= k < results@.len() ==> #[trigger] serial_run_takes(base_schedule, strategies@[k], results@[k].1 as int),
            ok ==> results@.len() == i,
            !ok ==> results@.len() == 0,
            forall|k: int| 0 <= k < results@.len() ==> (#[trigger] results@[k]).0 == k,
        decreases 10 - i,
    {
        let mut schedule = base_schedule.clone();
        proof {
            lemma_copy_same_problem(base_schedule, &schedule);
            assert(base_schedule.strategy_fits(strategies@[i as int]));
        }
        let ghost pre = schedule;
        match schedule.compute_serial(strategies[i]) {
            Ok(()) => {
                proof {
                    lemma_serial_run_copy(base_schedule, pre, &schedule, strategies@[i as int]);
                }
                let ghost r0 = results@;
                results.push((i, schedule.total_execute_time()));
                proof {
                    assert(serial_run_of(base_schedule, &schedule, strategies@[i as int]));
                    assert forall|k: int| 0 <= k < results@.len() implies #[trigger] serial_run_takes(base_schedule, strategies@[k],
                        results@[k].1 as int) by {
                        if k < r0.len() {
                            assert(results@[k] == r0[k]);
                        }
                    }
                }
            },
            Err(_) => {},
        }
        i = i + 1;
    }
    let ghost t = results@;
    record_results(&mut results, stats, Ghost(ok));
    proof {
        if ok {
            assert forall|i: int| 0 <= i < 10 implies #[trigger] serial_run_takes(base_schedule, deterministic_strategies()[i],
                stats@[i].total_time - old(stats)@[i].total_time) by {
                assert(serial_run_takes(base_schedule, strategies@[i], t[i].1 as int));
            }
        }
    }
}

/// Runs the parallel schedule generation on a copy of `base_schedule` with
/// every strategy that does not depend on chance, in the order of
/// `SortStrategy::all_except_random`, and adds the results of the runs that
/// succeed to the totals of their strategies (entry `i` of `stats` for the
/// `i`-th strategy).
pub fn run_seed_parallel(base_schedule: &Schedule, stats: &mut Vec<StrategyStats>)
    requires
        base_schedule.wf(),
        base_schedule.in_degrees_fit(),
        horizon(base_schedule.operations@, base_schedule.batches@, base_schedule.resource_groups@)
            + total_duration(base_schedule.operations@) < Time::MAX,
        base_schedule.strategy_fits(SortStrategy::LongestSuccessorDuration),
        forall|k: int| 0 <= k < base_schedule.operations@.len() ==> (#[trigger] base_schedule.operations@[k]).scheduled_span is None,
        base_schedule.pending_operation_ids@ == Map::<u32, VecDeque<OperationId>>::empty(),
        old(stats)@.len() >= 10,
        room_for_one_more(old(stats)@),
    ensures
        recorded(old(stats)@, final(stats)@, 10,
            has_topological_order(base_schedule.operations@)
                && groups_staffed(base_schedule.operations@, base_schedule.resource_groups@)),
        has_topological_order(base_schedule.operations@)
            && groups_staffed(base_schedule.operations@, base_schedule.resource_groups@)
            ==> forall|i: int| 0 <= i < 10 ==> #[trigger] parallel_run_takes(base_schedule, deterministic_strategies()[i],
                final(stats)@[i].total_time - old(stats)@[i].total_time),
{
    let ghost ok = has_topological_order(base_schedule.operations@)
        && groups_staffed(base_schedule.operations@, base_schedule.resource_groups@);
    let strategies = SortStrategy::all_except_random();
    let mut results: Vec<(usize, Time)> = Vec::new();
    let mut i: usize = 0;
    while i < strategies.len()
        invariant
            base_schedule.wf(),
            base_schedule.in_degrees_fit(),
            horizon(base_schedule.operations@, base_schedule.batches@, base_schedule.resource_groups@)
                + total_duration(base_schedule.operations@) < Time::MAX,
            base_schedule.strategy_fits(SortStrategy::LongestSuccessorDuration),
            forall|k: int| 0 <= k < base_schedule.operations@.len() ==> (#[trigger] base_schedule.operations@[k]).scheduled_span is None,
            base_schedule.pending_operation_ids@ == Map::<u32, VecDeque<OperationId>>::empty(),
            ok == (has_topological_order(base_schedule.operations@)
                && groups_staffed(base_schedule.operations@, base_schedule.resource_groups@)),
            strategies@ == deterministic_strategies(),
            0 <= i <= 10,
            forall|k: int| 0 <= k < results@.len() ==> #[trigger] parallel_run_takes(base_schedule, strategies@[k], results@[k].1 as int),
            ok ==> results@.len() == i,
            !ok ==> results@.len() == 0,
            forall|k: int| 0 <= k < results@.len() ==> (#[trigger] results@[k]).0 == k,
        decreases 10 - i,
    {
        let mut schedule = base_schedule.clone();
        proof {
            lemma_copy_same_problem(base_schedule, &schedule);
            assert(base_schedule.strategy_fits(strategies@[i as int]));
            assert forall|k: int| 0 <= k < schedule.operations@.len() implies (#[trigger] schedule.operations@[k]).scheduled_span is None by {
                assert(crate::job::operation_copy(base_schedule.operations@[k], schedule.operations@[k]));
            }
        }
        let ghost pre = schedule;
        match schedule.compute_parallel(strategies[i]) {
            Ok(()) => {
                proof {
                    lemma_parallel_run_copy(base_schedule, pre, &schedule, strategies@[i as int]);
                }
                let ghost r0 = results@;
                results.push((i, schedule.total_execute_time()));
                proof {
                    assert(parallel_run_of(base_schedule, &schedule, strategies@[i as int]));
                    assert forall|k: int| 0 <= k < results@.len() implies #[trigger] parallel_run_takes(base_schedule, strategies@[k],
                        results@[k].1 as int) by {
                        if k < r0.len() {
                            assert(results@[k] == r0[k]);
                        }
                    }
                }
            },
            Err(_) => {},
        }
        i = i + 1;
    }
    let ghost t = results@;
    record_results(&mut results, stats, Ghost(ok));
    proof {
        if ok {
            assert forall|i: int| 0 <= i < 10 implies #[trigger] parallel_run_takes(base_schedule, deterministic_strategies()[i],
                stats@[i].total_time - old(stats)@[i].total_time) by {
                assert(parallel_run_takes(base_schedule, strategies@[i], t[i].1 as int));
            }
        }
    }
}

/// Sorts one problem's results and adds them to the totals.
fn record_results(results: &mut Vec<(usize, Time)>, stats: &mut Vec<StrategyStats>, Ghost(solved): Ghost<bool>)
    requires
        forall|k: int| 0 <= k < old(results)@.len() ==> (#[trigger] old(results)@[k]).0 == k,
        solved ==> old(results)@.len() == 10,
        !solved ==> old(results)@.len() == 0,
        old(stats)@.len() >= 10,
        room_for_one_more(old(stats)@),
    ensures
        recorded(old(stats)@, final(stats)@, 10, solved),
        forall|i: int| 0 <= i < old(results)@.len()
            ==> #[trigger] final(stats)@[i].total_time == old(stats)@[i].total_time + old(results)@[i].1,
{
    let ghost t = results@;
    let ghost stats0 = stats@;
    let stats_len = stats.len();
    proof {
        assert forall|i: int| 0 <= i < stats0.len() implies {
            let s = sort_by_time(t);
            let st = #[trigger] stats0[i];
            &&& st.total_time + time_for(s, i as usize, s.len() as int) <= u64::MAX
            &&& st.rank_sum + rank_for(s, i as usize, s.len() as int) <= usize::MAX
            &&& st.run_count + count_for(s, i as usize, s.len() as int) <= usize::MAX
        } by {
            lemma_ranked_at(t, i as usize);
        }
    }
    accumulate(results, stats);
    proof {
        assert(stats0.len() == stats_len);
        lemma_accumulated(t, stats0, stats@, solved);
    }
}

} // verus!
