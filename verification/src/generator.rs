use vstd::prelude::*;
use std::collections::VecDeque;
use rand::rngs::StdRng;
use rand::{RngExt, SeedableRng};
use crate::indices::{BatchId, OperationId, ResourceGroupId};
use crate::job::{Batch, Operation};
use crate::time::Time;
use crate::worker::ResourceGroup;
use crate::graph::{has_topological_order, in_edges, is_topological_order, lemma_occ_zero, occ, preds, succs};
use crate::sums::{lemma_sum_dur_le_total, lemma_sum_dur_set, sum_dur, total_dur, total_duration};
use crate::strategy::{dur_sum_of, SortStrategy};
use crate::placement::horizon;
use crate::serial::groups_staffed;
use crate::schedule::{none_done, same_but_links, Schedule};

verus! {

/// `rand::rngs::StdRng`, the seedable random generator; opaque here.
#[verifier::external_type_specification]
#[verifier::external_body]
pub struct ExStdRng(StdRng);

/// `rand::SeedableRng::seed_from_u64` for `rand::rngs::StdRng`: a generator
/// whose whole sequence is fixed by `seed`. Nothing is stated of its state.
#[verifier::external_body]
fn seeded_rng(seed: u64) -> StdRng {
    StdRng::seed_from_u64(seed)
}

/// `rand::RngExt::random_range` on `lo..=hi` for `usize`: some value of the
/// range (which one depends on the generator's state).
#[verifier::external_body]
fn random_count(rng: &mut StdRng, lo: usize, hi: usize) -> (r: usize)
    requires
        lo <= hi,
    ensures
        lo <= r <= hi,
{
    rng.random_range(lo..=hi)
}

/// A random time in `lo..=hi`. The generator draws a `usize` range whose
/// bounds fit in `u32` exactly as the same `u32` range.
fn random_time(rng: &mut StdRng, lo: Time, hi: Time) -> (r: Time)
    requires
        lo <= hi,
    ensures
        lo <= r <= hi,
{
    let r = random_count(rng, lo as usize, hi as usize);
    r as Time
}

/// Every precedence edge goes from a lower to a higher operation id.
pub open spec fn edges_forward(ops: Seq<Operation>) -> bool {
    forall|u: int, k: int| 0 <= u < ops.len() && 0 <= k < succs(ops, u).len() ==> u < #[trigger] succs(ops, u)[k]
}

/// No precedence edge is listed twice.
pub open spec fn edges_simple(ops: Seq<Operation>) -> bool {
    forall|u: int| 0 <= u < ops.len() ==> #[trigger] simple_at(ops, u)
}

/// Operation `u` lists no successor and no predecessor twice.
pub open spec fn simple_at(ops: Seq<Operation>, u: int) -> bool {
    succs(ops, u).no_duplicates() && preds(ops, u).no_duplicates()
}

/// The operations below `m` that belong to batch `b`, in id order.
pub open spec fn ops_in_batch(ops: Seq<Operation>, b: int, m: int) -> Seq<usize>
    decreases m,
{
    if m <= 0 {
        Seq::empty()
    } else if ops[m - 1].assigned_batch_id == b {
        ops_in_batch(ops, b, m - 1).push((m - 1) as usize)
    } else {
        ops_in_batch(ops, b, m - 1)
    }
}

/// The first `n` operation ids in increasing order.
pub open spec fn id_order(n: int) -> Seq<usize> {
    Seq::new(n as nat, |i: int| i as usize)
}

/// Edges that all go forward leave no cycle: the ids in increasing order
/// are a topological order.
pub proof fn lemma_forward_edges_acyclic(ops: Seq<Operation>)
    requires
        edges_forward(ops),
        ops.len() <= usize::MAX,
    ensures
        is_topological_order(ops, id_order(ops.len() as int)),
        has_topological_order(ops),
{
    let order = id_order(ops.len() as int);
    assert forall|a: int, b: int| 0 <= a < order.len() && 0 <= b < order.len()
        && #[trigger] succs(ops, order[a] as int).contains(#[trigger] order[b]) implies a < b by {
        let k = choose|k: int| 0 <= k < succs(ops, a).len() && succs(ops, a)[k] == order[b];
        assert(a < succs(ops, a)[k]);
    }
    assert(is_topological_order(ops, order));
}

proof fn lemma_occ_at_most_one(s: Seq<usize>, v: usize)
    requires
        s.no_duplicates(),
    ensures
        occ(s, v) <= 1,
    decreases s.len(),
{
    if s.len() > 0 {
        lemma_occ_at_most_one(s.drop_last(), v);
        if s.last() == v {
            assert(!s.drop_last().contains(v)) by {
                if s.drop_last().contains(v) {
                    let k = choose|k: int| 0 <= k < s.drop_last().len() && s.drop_last()[k] == v;
                    assert(s[k] == s[s.len() - 1]);
                }
            }
            lemma_occ_zero(s.drop_last(), v);
        }
    }
}

proof fn lemma_in_edges_at_most(ops: Seq<Operation>, v: usize, done: Seq<bool>, k: int)
    requires
        edges_simple(ops),
        0 <= k <= ops.len(),
    ensures
        in_edges(ops, v, done, k) <= k,
    decreases k,
{
    if k > 0 {
        lemma_in_edges_at_most(ops, v, done, k - 1);
        assert(simple_at(ops, k - 1));
        lemma_occ_at_most_one(succs(ops, k - 1), v);
    }
}

/// Without repeated edges no operation has more incoming edges than there
/// are operations.
pub proof fn lemma_simple_in_degrees(s: &Schedule)
    requires
        edges_simple(s.operations@),
        s.operations@.len() <= usize::MAX,
    ensures
        s.in_degrees_fit(),
{
    assert forall|v: usize| v < s.operations@.len() implies #[trigger] in_edges(s.operations@, v,
        none_done(s.operations@.len()), s.operations@.len() as int) <= usize::MAX by {
        lemma_in_edges_at_most(s.operations@, v, none_done(s.operations@.len()), s.operations@.len() as int);
    }
}

/// The operations below `m` flagged by their membership in `idxs`.
pub open spec fn member_flags(idxs: Seq<usize>, m: int) -> Seq<bool> {
    Seq::new(m as nat, |i: int| idxs.contains(i as usize))
}

proof fn lemma_dur_sum_flags(ops: Seq<Operation>, idxs: Seq<usize>)
    requires
        ops.len() <= usize::MAX,
        idxs.no_duplicates(),
        forall|k: int| 0 <= k < idxs.len() ==> #[trigger] idxs[k] < ops.len(),
    ensures
        dur_sum_of(ops, idxs) == sum_dur(ops, member_flags(idxs, ops.len() as int), ops.len() as int),
    decreases idxs.len(),
{
    let n = ops.len() as int;
    if idxs.len() == 0 {
        let f = member_flags(idxs, n);
        assert(f =~= none_done(n as nat));
        lemma_sum_dur_none(ops, n);
    } else {
        let p = idxs.drop_last();
        let x = idxs.last();
        assert(p.no_duplicates()) by {
            assert forall|a: int, b: int| 0 <= a < p.len() && 0 <= b < p.len() && a != b implies p[a] != p[b] by {
                assert(p[a] == idxs[a] && p[b] == idxs[b]);
            }
        }
        assert forall|k: int| 0 <= k < p.len() implies #[trigger] p[k] < ops.len() by {
            assert(p[k] == idxs[k]);
        }
        lemma_dur_sum_flags(ops, p);
        assert(!p.contains(x)) by {
            if p.contains(x) {
                let k = choose|k: int| 0 <= k < p.len() && p[k] == x;
                assert(idxs[k] == idxs[idxs.len() - 1]);
            }
        }
        assert(x < n) by {
            assert(idxs[idxs.len() - 1] < n);
        }
        assert(member_flags(idxs, n) =~= member_flags(p, n).update(x as int, true)) by {
            assert forall|i: int| 0 <= i < n implies member_flags(idxs, n)[i] == member_flags(p, n).update(x as int, true)[i] by {
                if i == x {
                    assert(idxs[idxs.len() - 1] == x);
                } else {
                    if idxs.contains(i as usize) {
                        let k = choose|k: int| 0 <= k < idxs.len() && idxs[k] == i as usize;
                        assert(k != idxs.len() - 1);
                        assert(p[k] == i as usize);
                    }
                    if p.contains(i as usize) {
                        let k = choose|k: int| 0 <= k < p.len() && p[k] == i as usize;
                        assert(idxs[k] == i as usize);
                    }
                }
            }
        }
        lemma_sum_dur_set(ops, member_flags(p, n), n, x as int);
    }
}

proof fn lemma_sum_dur_none(ops: Seq<Operation>, m: int)
    requires
        0 <= m <= ops.len(),
    ensures
        sum_dur(ops, none_done(ops.len()), m) == 0,
    decreases m,
{
    if m > 0 {
        lemma_sum_dur_none(ops, m - 1);
    }
}

/// The durations of distinct operations add up to at most the total.
pub proof fn lemma_dur_sum_distinct(ops: Seq<Operation>, idxs: Seq<usize>)
    requires
        ops.len() <= usize::MAX,
        idxs.no_duplicates(),
        forall|k: int| 0 <= k < idxs.len() ==> #[trigger] idxs[k] < ops.len(),
    ensures
        dur_sum_of(ops, idxs) <= total_duration(ops),
{
    lemma_dur_sum_flags(ops, idxs);
    lemma_sum_dur_le_total(ops, member_flags(idxs, ops.len() as int), ops.len() as int);
}

proof fn lemma_simple_at(ops: Seq<Operation>, u: int)
    requires
        edges_simple(ops),
        0 <= u < ops.len(),
    ensures
        succs(ops, u).no_duplicates(),
        preds(ops, u).no_duplicates(),
{
    assert(simple_at(ops, u));
}

/// A schedule being built: well formed, every edge forward and listed once,
/// nothing placed and no run state.
pub open spec fn fresh(s: &Schedule) -> bool {
    &&& s.wf()
    &&& edges_forward(s.operations@)
    &&& edges_simple(s.operations@)
    &&& forall|i: int| 0 <= i < s.operations@.len() ==> (#[trigger] s.operations@[i]).scheduled_span is None
        && s.operations@[i].assigned_resource_id is None
    &&& s.pending_operation_ids@ == Map::<u32, VecDeque<OperationId>>::empty()
    &&& s.critical_path_data is None
}

/// Adds the edge `a -> b` between two existing operations, `a` first.
fn add_forward_edge(s: &mut Schedule, a: OperationId, b: OperationId)
    requires
        fresh(old(s)),
        a < b < old(s).operations@.len(),
        !succs(old(s).operations@, a as int).contains(b),
    ensures
        fresh(final(s)),
        final(s).resource_groups@ == old(s).resource_groups@,
        final(s).batches@ == old(s).batches@,
        final(s).operations@.len() == old(s).operations@.len(),
        forall|i: int| 0 <= i < old(s).operations@.len() ==> same_but_links(#[trigger] final(s).operations@[i], old(s).operations@[i]),
        succs(final(s).operations@, a as int) == succs(old(s).operations@, a as int).push(b),
        forall|u: int| 0 <= u < old(s).operations@.len() && u != a ==> #[trigger] succs(final(s).operations@, u) == succs(old(s).operations@, u),
{
    let ghost ops0 = s.operations@;
    proof {
        assert(edges_simple(ops0));
        assert(!preds(ops0, b as int).contains(a)) by {
            crate::graph::lemma_mirror(ops0, old(s).batches@.len() as int, old(s).resource_groups@.len() as int, a, b);
        }
    }
    s.add_precedence(a, b);
    proof {
        let ops = s.operations@;
        let n = ops.len();
        assert forall|u: int| 0 <= u < n && u != a implies #[trigger] succs(ops, u) == succs(ops0, u) by {
            if u != b {
                assert(ops[u] == ops0[u]);
            }
        }
        assert forall|u: int| 0 <= u < n && u != b implies #[trigger] preds(ops, u) == preds(ops0, u) by {
            if u != a {
                assert(ops[u] == ops0[u]);
            }
        }
        assert forall|u: int, k: int| 0 <= u < n && 0 <= k < succs(ops, u).len() implies u < #[trigger] succs(ops, u)[k] by {
            if u == a {
                if k < succs(ops0, u).len() {
                    assert(succs(ops, u)[k] == succs(ops0, u)[k]);
                }
            } else {
                assert(succs(ops, u)[k] == succs(ops0, u)[k]);
            }
        }
        assert forall|u: int| 0 <= u < n implies #[trigger] simple_at(ops, u) by {
            lemma_simple_at(ops0, u);
            if u == a {
                let q = succs(ops0, u);
                assert forall|x: int, y: int| 0 <= x < q.len() + 1 && 0 <= y < q.len() + 1 && x != y
                    implies q.push(b)[x] != q.push(b)[y] by {
                    if x == q.len() {
                        assert(q[y] != b);
                    } else if y == q.len() {
                        assert(q[x] != b);
                    }
                }
            }
            if u == b {
                let q = preds(ops0, u);
                assert forall|x: int, y: int| 0 <= x < q.len() + 1 && 0 <= y < q.len() + 1 && x != y
                    implies q.push(a)[x] != q.push(a)[y] by {
                    if x == q.len() {
                        assert(q[y] != a);
                    } else if y == q.len() {
                        assert(q[x] != a);
                    }
                }
            }
        }
        assert forall|i: int| 0 <= i < n implies (#[trigger] ops[i]).scheduled_span is None
            && ops[i].assigned_resource_id is None by {
            assert(same_but_links(ops[i], ops0[i]));
        }
    }
}

/// The integer part of a generation config: how many resource groups of
/// which sizes, how many operation chains of which lengths and durations,
/// and how many batches with which start times and priorities.
pub struct GenerationSettings {
    pub resource_group_sizes: Vec<usize>,
    pub operation_chains_count: usize,
    pub min_opearions_per_chain: usize,
    pub max_opearions_per_chain: usize,
    pub min_operation_duration: Time,
    pub max_operation_duration: Time,
    pub batch_count: usize,
    pub max_batch_priority: usize,
    pub max_batch_start_time: Time,
    pub random_seed: u64,
}

impl GenerationSettings {
    /// The shortest duration an operation gets (at least 1).
    pub open spec fn min_duration(&self) -> int {
        if self.min_operation_duration >= 1 { self.min_operation_duration as int } else { 1 }
    }

    /// The longest duration an operation gets (at least the shortest).
    pub open spec fn max_duration(&self) -> int {
        if self.max_operation_duration >= self.min_duration() { self.max_operation_duration as int } else { self.min_duration() }
    }

    /// Generation cannot fail on these settings: every random range it
    /// draws from is non-empty.
    pub open spec fn generable(&self) -> bool {
        &&& self.min_opearions_per_chain <= self.max_opearions_per_chain
        &&& self.operation_chains_count > 0 ==> self.batch_count > 0
        &&& self.operation_chains_count > 0 && self.max_opearions_per_chain > 0 ==> self.resource_group_sizes@.len() > 0
        &&& self.operation_chains_count > 1 ==> self.min_opearions_per_chain > 0
    }
}

/// Adds one resource group per size, numbered in order.
fn add_groups(s: &mut Schedule, sizes: &Vec<usize>) -> (ids: Vec<ResourceGroupId>)
    requires
        fresh(old(s)),
        old(s).resource_groups@.len() == 0,
    ensures
        ids@ == id_order(sizes@.len() as int),
        fresh(final(s)),
        final(s).operations@ == old(s).operations@,
        final(s).batches@ == old(s).batches@,
        final(s).resource_groups@.len() == sizes@.len(),
        forall|g: int| 0 <= g < sizes@.len() ==> {
            let grp = #[trigger] final(s).resource_groups@[g];
            &&& grp.id == g
            &&& grp.resources@.len() == sizes@[g]
            &&& grp.next_available_time == 0
            &&& forall|r: int| 0 <= r < grp.resources@.len() ==> (#[trigger] grp.resources@[r]).id == r
                && grp.resources@[r].allocations@.len() == 0
        },
{
    let mut ids: Vec<ResourceGroupId> = Vec::new();
    let mut i: usize = 0;
    while i < sizes.len()
        invariant
            ids@ == id_order(i as int),
            fresh(s),
            s.operations@ == old(s).operations@,
            s.batches@ == old(s).batches@,
            0 <= i <= sizes@.len(),
            s.resource_groups@.len() == i,
            forall|g: int| 0 <= g < i ==> {
                let grp = #[trigger] s.resource_groups@[g];
                &&& grp.id == g
                &&& grp.resources@.len() == sizes@[g]
                &&& grp.next_available_time == 0
                &&& forall|r: int| 0 <= r < grp.resources@.len() ==> (#[trigger] grp.resources@[r]).id == r
                    && grp.resources@[r].allocations@.len() == 0
            },
        decreases sizes@.len() - i,
    {
        let size = sizes[i];
        let rg_id = s.add_resource_group(ResourceGroup::new(s.resource_groups.len(), size));
        ids.push(rg_id);
        proof {
            assert(rg_id == i);
            assert(ids@ =~= id_order(i + 1));
        }
        i = i + 1;
    }
    proof {
        assert(ids@ =~= id_order(sizes@.len() as int));
    }
    ids
}

/// Adds `settings.batch_count` batches, numbered in order, each with a
/// random start time and priority within the settings' bounds and a due
/// time of 0.
fn add_batches(s: &mut Schedule, rng: &mut StdRng, settings: &GenerationSettings)
    requires
        fresh(old(s)),
        old(s).batches@.len() == 0,
    ensures
        fresh(final(s)),
        final(s).operations@ == old(s).operations@,
        final(s).resource_groups@ == old(s).resource_groups@,
        final(s).batches@.len() == settings.batch_count,
        forall|b: int| 0 <= b < settings.batch_count ==> {
            let bt = #[trigger] final(s).batches@[b];
            &&& bt.id == b
            &&& bt.start_time <= settings.max_batch_start_time
            &&& bt.priority <= settings.max_batch_priority
            &&& bt.due_time == 0
            &&& bt.operation_ids@.len() == 0
        },
{
    let mut b: usize = 0;
    while b < settings.batch_count
        invariant
            fresh(s),
            s.operations@ == old(s).operations@,
            s.resource_groups@ == old(s).resource_groups@,
            0 <= b <= settings.batch_count,
            s.batches@.len() == b,
            forall|k: int| 0 <= k < b ==> {
                let bt = #[trigger] s.batches@[k];
                &&& bt.id == k
                &&& bt.start_time <= settings.max_batch_start_time
                &&& bt.priority <= settings.max_batch_priority
                &&& bt.due_time == 0
                &&& bt.operation_ids@.len() == 0
            },
        decreases settings.batch_count - b,
    {
        let start = random_time(rng, 0, settings.max_batch_start_time);
        let priority = random_count(rng, 0, settings.max_batch_priority);
        let batch = Batch::new(b, start, 0, priority);
        s.add_batch(batch);
        b = b + 1;
    }
}

/// Number of operations in the chains before chain `j`.
pub open spec fn chain_start(jobs: Seq<Vec<OperationId>>, j: int) -> int
    decreases j,
{
    if j <= 0 {
        0
    } else {
        chain_start(jobs, j - 1) + jobs[j - 1]@.len()
    }
}

/// The chains list the operation ids `0..n` one after the other.
pub open spec fn chains_laid_out(jobs: Seq<Vec<OperationId>>, n: int) -> bool {
    &&& chain_start(jobs, jobs.len() as int) == n
    &&& forall|j: int, k: int| 0 <= j < jobs.len() && 0 <= k < jobs[j]@.len()
        ==> #[trigger] jobs[j]@[k] == chain_start(jobs, j) + k
}

/// `u -> v` links two consecutive operations of one chain.
pub open spec fn chain_link(jobs: Seq<Vec<OperationId>>, u: int, v: int) -> bool {
    exists|j: int| 0 <= j < jobs.len() && #[trigger] chain_start(jobs, j) <= u && v == u + 1
        && v < chain_start(jobs, j) + jobs[j]@.len()
}

/// `u -> v` is the extra link of chain `j` into its last operation from
/// operation `cross[j]` of an earlier chain.
pub open spec fn cross_link(jobs: Seq<Vec<OperationId>>, cross: Seq<Option<usize>>, u: int, v: int) -> bool {
    exists|j: int| 0 <= j < jobs.len() && #[trigger] cross[j] == Some(u as usize)
        && v == chain_start(jobs, j) + jobs[j]@.len() - 1
}

/// Every extra link of a chain comes from an earlier chain.
pub open spec fn cross_from_earlier(jobs: Seq<Vec<OperationId>>, cross: Seq<Option<usize>>) -> bool {
    &&& cross.len() == jobs.len()
    &&& forall|j: int| 0 <= j < cross.len() && (#[trigger] cross[j]) is Some ==> cross[j]->0 < chain_start(jobs, j)
}

/// The links of `ops` are the chain links and the extra links of `cross`,
/// and nothing else.
pub open spec fn chain_links_only(ops: Seq<Operation>, jobs: Seq<Vec<OperationId>>, cross: Seq<Option<usize>>) -> bool {
    &&& cross_from_earlier(jobs, cross)
    &&& forall|u: int, v: int| 0 <= u < ops.len() && 0 <= v < ops.len()
        ==> (#[trigger] linked(ops, u, v) <==> chain_link(jobs, u, v) || cross_link(jobs, cross, u, v))
}

/// The links of a generated problem: the chain links, the extra links of
/// `cross`, and the drawn pairs `draws` of later operations.
pub open spec fn generated_links(
    ops: Seq<Operation>,
    jobs: Seq<Vec<OperationId>>,
    cross: Seq<Option<usize>>,
    draws: Seq<(usize, usize)>,
) -> bool {
    &&& cross_from_earlier(jobs, cross)
    &&& forall|k: int| 0 <= k < draws.len() ==> (#[trigger] draws[k]).0 < draws[k].1 < ops.len()
    &&& forall|u: int, v: int| 0 <= u < ops.len() && 0 <= v < ops.len()
        ==> (#[trigger] linked(ops, u, v) <==> chain_link(jobs, u, v) || cross_link(jobs, cross, u, v)
            || draws.contains((u as usize, v as usize)))
}

/// Chain and extra links stay among the operations of the chains.
proof fn lemma_links_below(jobs: Seq<Vec<OperationId>>, cross: Seq<Option<usize>>, u: int, v: int)
    requires
        cross_from_earlier(jobs, cross),
        0 <= u <= usize::MAX,
    ensures
        chain_link(jobs, u, v) || cross_link(jobs, cross, u, v)
            ==> u < chain_start(jobs, jobs.len() as int) && v < chain_start(jobs, jobs.len() as int),
{
    if chain_link(jobs, u, v) {
        let j = choose|j: int| 0 <= j < jobs.len() && #[trigger] chain_start(jobs, j) <= u && v == u + 1
            && v < chain_start(jobs, j) + jobs[j]@.len();
        lemma_chain_start_mono(jobs, j + 1, jobs.len() as int);
    }
    if cross_link(jobs, cross, u, v) {
        let j = choose|j: int| 0 <= j < jobs.len() && #[trigger] cross[j] == Some(u as usize)
            && v == chain_start(jobs, j) + jobs[j]@.len() - 1;
        lemma_chain_start_mono(jobs, j + 1, jobs.len() as int);
        lemma_chain_start_mono(jobs, j, jobs.len() as int);
        assert(cross[j]->0 < chain_start(jobs, j));
        assert(chain_start(jobs, j + 1) == chain_start(jobs, j) + jobs[j]@.len());
    }
}

/// Adding one more chain of `x@.len()` operations from `cs` on, with extra
/// link `f`, adds its consecutive links and that extra link.
proof fn lemma_links_push(jobs: Seq<Vec<OperationId>>, cross: Seq<Option<usize>>, x: Vec<OperationId>, f: Option<usize>, u: int, v: int)
    requires
        cross.len() == jobs.len(),
    ensures
        chain_link(jobs.push(x), u, v) <==> chain_link(jobs, u, v)
            || (chain_start(jobs, jobs.len() as int) <= u && v == u + 1 && v < chain_start(jobs, jobs.len() as int) + x@.len()),
        cross_link(jobs.push(x), cross.push(f), u, v) <==> cross_link(jobs, cross, u, v)
            || (f == Some(u as usize) && v == chain_start(jobs, jobs.len() as int) + x@.len() - 1),
{
    let j1 = jobs.push(x);
    let c1 = cross.push(f);
    let c = jobs.len() as int;
    assert forall|j: int| 0 <= j <= c implies #[trigger] chain_start(j1, j) == chain_start(jobs, j) by {
        lemma_chain_start_push(jobs, x, j);
    }
    if chain_link(j1, u, v) {
        let j = choose|j: int| 0 <= j < j1.len() && #[trigger] chain_start(j1, j) <= u && v == u + 1
            && v < chain_start(j1, j) + j1[j]@.len();
        if j < c {
            assert(j1[j] == jobs[j]);
            assert(chain_start(jobs, j) <= u);
        }
    }
    if chain_link(jobs, u, v) {
        let j = choose|j: int| 0 <= j < jobs.len() && #[trigger] chain_start(jobs, j) <= u && v == u + 1
            && v < chain_start(jobs, j) + jobs[j]@.len();
        assert(j1[j] == jobs[j]);
        assert(chain_start(j1, j) <= u);
    }
    if chain_start(jobs, c) <= u && v == u + 1 && v < chain_start(jobs, c) + x@.len() {
        assert(j1[c] == x);
        assert(chain_start(j1, c) <= u);
    }
    if cross_link(j1, c1, u, v) {
        let j = choose|j: int| 0 <= j < j1.len() && #[trigger] c1[j] == Some(u as usize)
            && v == chain_start(j1, j) + j1[j]@.len() - 1;
        if j < c {
            assert(j1[j] == jobs[j] && c1[j] == cross[j]);
            assert(cross[j] == Some(u as usize));
        }
    }
    if cross_link(jobs, cross, u, v) {
        let j = choose|j: int| 0 <= j < jobs.len() && #[trigger] cross[j] == Some(u as usize)
            && v == chain_start(jobs, j) + jobs[j]@.len() - 1;
        assert(j1[j] == jobs[j] && c1[j] == cross[j]);
        assert(c1[j] == Some(u as usize));
    }
    if f == Some(u as usize) && v == chain_start(jobs, c) + x@.len() - 1 {
        assert(j1[c] == x && c1[c] == f);
        assert(c1[c] == Some(u as usize));
    }
}

/// A new operation without links adds no link.
proof fn lemma_links_fresh(ops: Seq<Operation>, ops1: Seq<Operation>, u: int, v: int)
    requires
        ops1.len() == ops.len() + 1,
        forall|i: int| 0 <= i < ops.len() ==> #[trigger] ops1[i] == ops[i],
        succs(ops1, ops.len() as int).len() == 0,
        forall|i: int, k: int| 0 <= i < ops.len() && 0 <= k < succs(ops, i).len() ==> #[trigger] succs(ops, i)[k] < ops.len(),
        0 <= u < ops1.len(),
        0 <= v < ops1.len(),
        ops1.len() <= usize::MAX,
    ensures
        linked(ops1, u, v) <==> u < ops.len() && v < ops.len() && linked(ops, u, v),
{
    if u < ops.len() {
        assert(ops1[u] == ops[u]);
        assert(succs(ops1, u) == succs(ops, u));
        if linked(ops1, u, v) {
            let k = choose|k: int| 0 <= k < succs(ops, u).len() && succs(ops, u)[k] == v as usize;
            assert(succs(ops, u)[k] < ops.len());
        }
    } else {
        assert(u == ops.len());
        if linked(ops1, u, v) {
            let k = choose|k: int| 0 <= k < succs(ops1, u).len() && succs(ops1, u)[k] == v as usize;
        }
    }
}

/// Adding the edge `a -> b` adds exactly that link.
proof fn lemma_links_edge(ops: Seq<Operation>, ops1: Seq<Operation>, a: usize, b: usize, u: int, v: int)
    requires
        ops1.len() == ops.len(),
        succs(ops1, a as int) == succs(ops, a as int).push(b),
        forall|w: int| 0 <= w < ops.len() && w != a ==> #[trigger] succs(ops1, w) == succs(ops, w),
        0 <= u < ops.len(),
        0 <= v <= usize::MAX,
    ensures
        linked(ops1, u, v) <==> linked(ops, u, v) || (u == a && v == b),
{
    if u == a {
        let s0 = succs(ops, u);
        let s1 = succs(ops1, u);
        if linked(ops, u, v) {
            let k = choose|k: int| 0 <= k < s0.len() && s0[k] == v as usize;
            assert(s1[k] == v as usize);
        }
        if v == b {
            assert(s1[s0.len() as int] == b);
        }
        if linked(ops1, u, v) {
            let k = choose|k: int| 0 <= k < s1.len() && s1[k] == v as usize;
            if k < s0.len() {
                assert(s0[k] == v as usize);
            }
        }
    } else {
        assert(succs(ops1, u) == succs(ops, u));
    }
}

proof fn lemma_chain_start_push(jobs: Seq<Vec<OperationId>>, x: Vec<OperationId>, j: int)
    requires
        0 <= j <= jobs.len(),
    ensures
        chain_start(jobs.push(x), j) == chain_start(jobs, j),
    decreases j,
{
    if j > 0 {
        lemma_chain_start_push(jobs, x, j - 1);
        assert(jobs.push(x)[j - 1] == jobs[j - 1]);
    }
}

proof fn lemma_chain_start_mono(jobs: Seq<Vec<OperationId>>, i: int, j: int)
    requires
        0 <= i <= j,
    ensures
        chain_start(jobs, i) <= chain_start(jobs, j),
    decreases j - i,
{
    if i < j {
        lemma_chain_start_mono(jobs, i, j - 1);
    }
}

/// Whether `v` holds `x`.
fn ids_contain(v: &Vec<OperationId>, x: OperationId) -> (r: bool)
    ensures
        r == v@.contains(x),
{
    let mut i: usize = 0;
    while i < v.len()
        invariant
            0 <= i <= v@.len(),
            forall|k: int| 0 <= k < i ==> v@[k] != x,
        decreases v@.len() - i,
    {
        if v[i] == x {
            return true;
        }
        i = i + 1;
    }
    false
}

/// Appends a new operation without links, in batch 0.
fn add_fresh_operation(s: &mut Schedule, duration: Time, group: ResourceGroupId) -> (id: OperationId)
    requires
        fresh(old(s)),
        old(s).batches@.len() > 0,
        group < old(s).resource_groups@.len(),
    ensures
        fresh(final(s)),
        final(s).resource_groups@ == old(s).resource_groups@,
        final(s).batches@ == old(s).batches@,
        id == old(s).operations@.len(),
        final(s).operations@.len() == id + 1,
        forall|i: int| 0 <= i < id ==> #[trigger] final(s).operations@[i] == old(s).operations@[i],
        final(s).operations@[id as int].duration == duration,
        final(s).operations@[id as int].assigned_resource_group_id == group,
        final(s).operations@[id as int].assigned_batch_id == 0,
        succs(final(s).operations@, id as int).len() == 0,
{
    let ghost ops0 = s.operations@;
    let op = Operation::new(s.operations.len(), duration, 0, group);
    let id = s.add_operation(op);
    proof {
        let ops = s.operations@;
        assert forall|u: int| 0 <= u < ops.len() implies #[trigger] succs(ops, u) == (if u < ops0.len() { succs(ops0, u) } else { Seq::empty() })
            && preds(ops, u) == (if u < ops0.len() { preds(ops0, u) } else { Seq::empty() }) by {
            if u < ops0.len() {
                assert(ops[u] == ops0[u]);
            }
        }
        assert forall|u: int, k: int| 0 <= u < ops.len() && 0 <= k < succs(ops, u).len() implies u < #[trigger] succs(ops, u)[k] by {
            assert(u < ops0.len());
            assert(succs(ops, u)[k] == succs(ops0, u)[k]);
        }
        assert forall|u: int| 0 <= u < ops.len() implies #[trigger] simple_at(ops, u) by {
            if u < ops0.len() {
                lemma_simple_at(ops0, u);
            } else {
                assert(succs(ops, u) =~= Seq::<usize>::empty());
                assert(preds(ops, u) =~= Seq::<usize>::empty());
            }
        }
        assert forall|i: int| 0 <= i < ops.len() implies (#[trigger] ops[i]).scheduled_span is None
            && ops[i].assigned_resource_id is None by {
            if i < ops0.len() {
                assert(ops[i] == ops0[i]);
            }
        }
    }
    id
}

/// Adds `settings.operation_chains_count` chains of operations. Each chain
/// has a random length within the settings' bounds; each operation a random
/// duration, and a random resource group or (after the first of a chain,
/// sometimes) the group of the previous one; consecutive operations of a
/// chain are linked. From the second chain on, the last operation of a
/// chain sometimes also follows a random operation of an earlier chain.
/// Returns the chains and the operation ids in creation order.
fn add_chains(
    s: &mut Schedule,
    rng: &mut StdRng,
    settings: &GenerationSettings,
    resource_group_ids: &Vec<ResourceGroupId>,
) -> (r: (Vec<Vec<OperationId>>, Vec<OperationId>))
    requires
        fresh(old(s)),
        old(s).operations@.len() == 0,
        settings.generable(),
        old(s).batches@.len() == settings.batch_count,
        old(s).resource_groups@.len() == settings.resource_group_sizes@.len(),
        resource_group_ids@ == id_order(old(s).resource_groups@.len() as int),
    ensures
        fresh(final(s)),
        final(s).resource_groups@ == old(s).resource_groups@,
        final(s).batches@ == old(s).batches@,
        r.0@.len() == settings.operation_chains_count,
        chains_laid_out(r.0@, final(s).operations@.len() as int),
        forall|j: int| 0 <= j < r.0@.len() ==> settings.min_opearions_per_chain <= (#[trigger] r.0@[j])@.len()
            <= settings.max_opearions_per_chain,
        r.1@ == id_order(final(s).operations@.len() as int),
        final(s).operations@.len() <= settings.operation_chains_count * settings.max_opearions_per_chain,
        forall|i: int| 0 <= i < final(s).operations@.len() ==> {
            let op = #[trigger] final(s).operations@[i];
            &&& settings.min_duration() <= op.duration <= settings.max_duration()
            &&& op.assigned_batch_id == 0
        },
        exists|cross: Seq<Option<usize>>| #[trigger] chain_links_only(final(s).operations@, r.0@, cross),
{
    let min_dur: Time = if settings.min_operation_duration >= 1 { settings.min_operation_duration } else { 1 };
    let max_dur: Time = if settings.max_operation_duration >= min_dur { settings.max_operation_duration } else { min_dur };
    let mut job_operations: Vec<Vec<OperationId>> = Vec::new();
    let mut global_order: Vec<OperationId> = Vec::new();
    let mut c: usize = 0;
    let ghost mut cross: Seq<Option<usize>> = Seq::empty();
    while c < settings.operation_chains_count
        invariant
            chain_links_only(s.operations@, job_operations@, cross),
            fresh(s),
            s.resource_groups@ == old(s).resource_groups@,
            s.batches@ == old(s).batches@,
            settings.generable(),
            s.batches@.len() == settings.batch_count,
            s.resource_groups@.len() == settings.resource_group_sizes@.len(),
            resource_group_ids@ == id_order(s.resource_groups@.len() as int),
            min_dur == settings.min_duration(),
            max_dur == settings.max_duration(),
            0 <= c <= settings.operation_chains_count,
            job_operations@.len() == c,
            chains_laid_out(job_operations@, s.operations@.len() as int),
            forall|j: int| 0 <= j < c ==> settings.min_opearions_per_chain <= (#[trigger] job_operations@[j])@.len()
                <= settings.max_opearions_per_chain,
            global_order@ == id_order(s.operations@.len() as int),
            s.operations@.len() <= c * settings.max_opearions_per_chain,
            forall|i: int| 0 <= i < s.operations@.len() ==> {
                let op = #[trigger] s.operations@[i];
                &&& min_dur <= op.duration <= max_dur
                &&& op.assigned_batch_id == 0
            },
        decreases settings.operation_chains_count - c,
    {
        let ghost cs = s.operations@.len() as int;
        let num_ops = random_count(rng, settings.min_opearions_per_chain, settings.max_opearions_per_chain);
        proof {
            assert(settings.batch_count > 0);
            if num_ops > 0 {
                assert(resource_group_ids@.len() > 0);
            }
            assert((c + 1) * settings.max_opearions_per_chain == c * settings.max_opearions_per_chain + settings.max_opearions_per_chain)
                by (nonlinear_arith);
        }
        let mut ops_in_job: Vec<OperationId> = Vec::new();
        let mut i: usize = 0;
        while i < num_ops
            invariant
                fresh(s),
                s.resource_groups@ == old(s).resource_groups@,
                s.batches@ == old(s).batches@,
                s.batches@.len() == settings.batch_count,
                settings.batch_count > 0,
                num_ops > 0 ==> resource_group_ids@.len() > 0,
                resource_group_ids@ == id_order(s.resource_groups@.len() as int),
                min_dur == settings.min_duration(),
                max_dur == settings.max_duration(),
                1 <= min_dur <= max_dur,
                0 <= i <= num_ops,
                job_operations@.len() == c,
                chains_laid_out(job_operations@, cs),
                cs == chain_start(job_operations@, c as int),
                s.operations@.len() == cs + i,
                ops_in_job@.len() == i,
                forall|k: int| 0 <= k < i ==> #[trigger] ops_in_job@[k] == cs + k,
                cross_from_earlier(job_operations@, cross),
                forall|u: int, v: int| 0 <= u < s.operations@.len() && 0 <= v < s.operations@.len()
                    ==> (#[trigger] linked(s.operations@, u, v) <==> chain_link(job_operations@, u, v)
                        || cross_link(job_operations@, cross, u, v) || (cs <= u && v == u + 1)),
                global_order@ == id_order(s.operations@.len() as int),
                forall|ii: int| 0 <= ii < s.operations@.len() ==> {
                    let op = #[trigger] s.operations@[ii];
                    &&& min_dur <= op.duration <= max_dur
                    &&& op.assigned_batch_id == 0
                },
            decreases num_ops - i,
        {
            let duration = random_time(rng, min_dur, max_dur);
            let rg_id: ResourceGroupId = if i == 0 {
                resource_group_ids[random_count(rng, 0, resource_group_ids.len() - 1)]
            } else if random_time(rng, 0, 99) < 60 {
                resource_group_ids[random_count(rng, 0, resource_group_ids.len() - 1)]
            } else {
                let prev_op_id: OperationId = ops_in_job[i - 1];
                proof {
                    assert(ops_in_job@[i - 1] == cs + i - 1);
                }
                s.operations[prev_op_id].assigned_resource_group_id
            };
            let ghost ops_before = s.operations@;
            let op_id = add_fresh_operation(s, duration, rg_id);
            let ghost ops_f = s.operations@;
            ops_in_job.push(op_id);
            global_order.push(op_id);
            proof {
                assert(ops_in_job@[i as int] == op_id);
                assert(global_order@ =~= id_order(s.operations@.len() as int));
            }
            if i > 0 {
                let prev = ops_in_job[i - 1];
                proof {
                    assert(ops_in_job@[i - 1] == cs + i - 1);
                    assert(prev == op_id - 1);
                    assert(!succs(s.operations@, prev as int).contains(op_id)) by {
                        assert(s.operations@[prev as int] == ops_before[prev as int]);
                        if succs(ops_before, prev as int).contains(op_id) {
                            let k = choose|k: int| 0 <= k < succs(ops_before, prev as int).len()
                                && succs(ops_before, prev as int)[k] == op_id;
                            assert(succs(ops_before, prev as int)[k] < ops_before.len());
                        }
                    }
                }
                let ghost ops_mid = s.operations@;
                add_forward_edge(s, prev, op_id);
                proof {
                    assert forall|ii: int| 0 <= ii < s.operations@.len() implies {
                        let op = #[trigger] s.operations@[ii];
                        &&& min_dur <= op.duration <= max_dur
                        &&& op.assigned_batch_id == 0
                    } by {
                        assert(same_but_links(s.operations@[ii], ops_mid[ii]));
                    }
                }
            }
            proof {
                let ops1 = s.operations@;
                let jobs = job_operations@;
                assert(s.operations.len() == ops1.len());
                assert forall|u: int, v: int| 0 <= u < ops1.len() && 0 <= v < ops1.len() implies
                    (#[trigger] linked(ops1, u, v) <==> chain_link(jobs, u, v) || cross_link(jobs, cross, u, v)
                        || (cs <= u && v == u + 1)) by {
                    lemma_links_below(jobs, cross, u, v);
                    lemma_links_fresh(ops_before, ops_f, u, v);
                    if i > 0 {
                        lemma_links_edge(ops_f, ops1, (op_id - 1) as usize, op_id, u, v);
                    }
                }
            }
            i = i + 1;
        }
        let ghost ops_e = s.operations@;
        let ghost mut f: Option<usize> = None;
        if job_operations.len() > 0 {
            if random_time(rng, 0, 99) < 40 {
                proof {
                    assert(settings.operation_chains_count > 1);
                    assert(num_ops >= 1);
                }
                let prev_job_idx = random_count(rng, 0, job_operations.len() - 1);
                proof {
                    assert(job_operations@[prev_job_idx as int]@.len() >= 1);
                }
                let from_idx = random_count(rng, 0, job_operations[prev_job_idx].len() - 1);
                let from_op = job_operations[prev_job_idx][from_idx];
                let to_op = ops_in_job[ops_in_job.len() - 1];
                proof {
                    assert(from_op == chain_start(job_operations@, prev_job_idx as int) + from_idx);
                    lemma_chain_start_mono(job_operations@, prev_job_idx + 1, c as int);
                    assert(from_op < cs);
                    assert(ops_in_job@[num_ops - 1] == cs + num_ops - 1);
                    assert(to_op == cs + num_ops - 1);
                }
                proof {
                    f = Some(from_op);
                }
                if !ids_contain(&s.operations[from_op].successor_ids, to_op) {
                    let ghost ops_mid = s.operations@;
                    add_forward_edge(s, from_op, to_op);
                    proof {
                        assert forall|ii: int| 0 <= ii < s.operations@.len() implies {
                            let op = #[trigger] s.operations@[ii];
                            &&& min_dur <= op.duration <= max_dur
                            &&& op.assigned_batch_id == 0
                        } by {
                            assert(same_but_links(s.operations@[ii], ops_mid[ii]));
                        }
                        let ops1 = s.operations@;
                        assert forall|u: int, v: int| 0 <= u < ops1.len() && 0 <= v < ops1.len() implies
                            (#[trigger] linked(ops1, u, v) <==> linked(ops_e, u, v) || (u == from_op && v == to_op)) by {
                            lemma_links_edge(ops_e, ops1, from_op, to_op, u, v);
                        }
                    }
                } else {
                    proof {
                        assert(linked(ops_e, from_op as int, to_op as int));
                    }
                }
            }
        }
        let ghost jobs0 = job_operations@;
        proof {
            // the links are the chain links so far, this chain's, and its extra link
            let ops1 = s.operations@;
            assert(s.operations.len() == ops1.len());
            assert(ops1.len() == cs + num_ops);
            assert forall|u: int, v: int| 0 <= u < ops1.len() && 0 <= v < ops1.len() implies
                (#[trigger] linked(ops1, u, v) <==> linked(ops_e, u, v) || (f == Some(u as usize) && v == cs + num_ops - 1)) by {

            }
        }
        job_operations.push(ops_in_job);
        proof {
            let ops1 = s.operations@;
            let jobs = job_operations@;
            let cross1 = cross.push(f);
            assert(jobs == jobs0.push(ops_in_job));
            assert forall|u: int, v: int| 0 <= u < ops1.len() && 0 <= v < ops1.len() implies
                (#[trigger] linked(ops1, u, v) <==> chain_link(jobs, u, v) || cross_link(jobs, cross1, u, v)) by {
                lemma_links_push(jobs0, cross, ops_in_job, f, u, v);
                assert(linked(ops_e, u, v) <==> chain_link(jobs0, u, v) || cross_link(jobs0, cross, u, v)
                    || (cs <= u && v == u + 1));
            }
            assert forall|jj: int| 0 <= jj < cross1.len() && (#[trigger] cross1[jj]) is Some
                implies cross1[jj]->0 < chain_start(jobs, jj) by {
                lemma_chain_start_push(jobs0, ops_in_job, jj);
                if jj < c {
                    assert(cross1[jj] == cross[jj]);
                }
            }
            cross = cross1;
        }
        proof {
            let jobs = job_operations@;
            assert(jobs == jobs0.push(ops_in_job));
            lemma_chain_start_push(jobs0, ops_in_job, c as int);
            assert(chain_start(jobs, (c + 1) as int) == chain_start(jobs, c as int) + num_ops);
            assert forall|j: int, k: int| 0 <= j < jobs.len() && 0 <= k < jobs[j]@.len()
                implies #[trigger] jobs[j]@[k] == chain_start(jobs, j) + k by {
                lemma_chain_start_push(jobs0, ops_in_job, j);
                if j < c {
                    assert(jobs[j] == jobs0[j]);
                }
            }
            assert forall|j: int| 0 <= j < c + 1 implies settings.min_opearions_per_chain <= (#[trigger] jobs[j])@.len()
                <= settings.max_opearions_per_chain by {
                if j < c {
                    assert(jobs[j] == jobs0[j]);
                }
            }
        }
        c = c + 1;
    }
    let r = (job_operations, global_order);
    proof {
        assert(chain_links_only(s.operations@, r.0@, cross));
    }
    r
}

/// The operations agree on everything but their batch.
/// In each of the first `upto` chains, every operation but the last is in
/// the batch of the chain's first operation.
pub open spec fn chains_share_batch(ops: Seq<Operation>, jobs: Seq<Vec<OperationId>>, upto: int) -> bool {
    forall|j: int, k: int| 0 <= j < upto && 0 <= k < jobs[j]@.len() - 1
        ==> #[trigger] ops[jobs[j]@[k] as int].assigned_batch_id == ops[jobs[j]@[0] as int].assigned_batch_id
}

pub open spec fn same_but_batch(a: Operation, b: Operation) -> bool {
    &&& a.id == b.id
    &&& a.duration == b.duration
    &&& a.assigned_resource_group_id == b.assigned_resource_group_id
    &&& a.predecessor_ids@ == b.predecessor_ids@
    &&& a.successor_ids@ == b.successor_ids@
    &&& a.assigned_resource_id == b.assigned_resource_id
    &&& a.scheduled_span == b.scheduled_span
}

proof fn lemma_rebatch(s0: Schedule, s1: Schedule)
    requires
        fresh(&s0),
        s1.resource_groups@ == s0.resource_groups@,
        s1.batches@ == s0.batches@,
        s1.pending_operation_ids@ == s0.pending_operation_ids@,
        s1.critical_path_data == s0.critical_path_data,
        s1.operations@.len() == s0.operations@.len(),
        forall|i: int| 0 <= i < s0.operations@.len() ==> #[trigger] same_but_batch(s0.operations@[i], s1.operations@[i]),
        forall|i: int| 0 <= i < s1.operations@.len() ==> (#[trigger] s1.operations@[i]).assigned_batch_id < s1.batches@.len(),
    ensures
        fresh(&s1),
{
    let a = s0.operations@;
    let b = s1.operations@;
    assert forall|i: int| 0 <= i < b.len() implies #[trigger] succs(b, i) == succs(a, i) by {
        assert(same_but_batch(a[i], b[i]));
    }
    assert forall|i: int| 0 <= i < b.len() implies #[trigger] preds(b, i) == preds(a, i) by {
        assert(same_but_batch(a[i], b[i]));
    }
    assert forall|u: int, v: int| 0 <= u < b.len() && 0 <= v < b.len() implies
        (#[trigger] succs(b, u).contains(v as usize) <==> #[trigger] preds(b, v).contains(u as usize)) by {
        assert(succs(b, u) == succs(a, u));
        assert(preds(b, v) == preds(a, v));
        assert(succs(a, u).contains(v as usize) <==> preds(a, v).contains(u as usize));
    }
    assert forall|i: int, k: int| 0 <= i < b.len() && 0 <= k < succs(b, i).len() implies #[trigger] succs(b, i)[k] < b.len() by {
        assert(succs(b, i) == succs(a, i));
    }
    assert forall|i: int, k: int| 0 <= i < b.len() && 0 <= k < preds(b, i).len() implies #[trigger] preds(b, i)[k] < b.len() by {
        assert(preds(b, i) == preds(a, i));
    }
    assert forall|i: int| 0 <= i < b.len() implies (#[trigger] b[i]).id == i
        && b[i].assigned_resource_group_id < s1.resource_groups@.len()
        && b[i].scheduled_span is None && b[i].assigned_resource_id is None by {
        assert(same_but_batch(a[i], b[i]));
    }
    assert forall|u: int, k: int| 0 <= u < b.len() && 0 <= k < succs(b, u).len() implies u < #[trigger] succs(b, u)[k] by {
        assert(succs(b, u) == succs(a, u));
    }
    assert forall|u: int| 0 <= u < b.len() implies #[trigger] simple_at(b, u) by {
        lemma_simple_at(a, u);
        assert(succs(b, u) == succs(a, u));
        assert(preds(b, u) == preds(a, u));
    }
}

proof fn lemma_ops_in_batch_frame(a: Seq<Operation>, b: Seq<Operation>, bt: int, m: int)
    requires
        0 <= m <= a.len(),
        m <= b.len(),
        forall|i: int| 0 <= i < m ==> #[trigger] a[i].assigned_batch_id == b[i].assigned_batch_id,
    ensures
        ops_in_batch(a, bt, m) == ops_in_batch(b, bt, m),
    decreases m,
{
    if m > 0 {
        lemma_ops_in_batch_frame(a, b, bt, m - 1);
    }
}

/// Puts every chain in a random batch, except that the last operation of a
/// chain sometimes goes to another random batch. Returns, per batch, its
/// operations in id order.
fn assign_batches(
    s: &mut Schedule,
    rng: &mut StdRng,
    batch_count: usize,
    job_operations: &Vec<Vec<OperationId>>,
) -> (lists: Vec<Vec<OperationId>>)
    requires
        fresh(old(s)),
        old(s).batches@.len() == batch_count,
        job_operations@.len() > 0 ==> batch_count > 0,
        chains_laid_out(job_operations@, old(s).operations@.len() as int),
    ensures
        fresh(final(s)),
        final(s).resource_groups@ == old(s).resource_groups@,
        final(s).batches@ == old(s).batches@,
        final(s).operations@.len() == old(s).operations@.len(),
        forall|i: int| 0 <= i < old(s).operations@.len()
            ==> #[trigger] same_but_batch(old(s).operations@[i], final(s).operations@[i]),
        lists@.len() == batch_count,
        forall|b: int| 0 <= b < batch_count ==> (#[trigger] lists@[b])@ == ops_in_batch(final(s).operations@, b, final(s).operations@.len() as int),
        chains_share_batch(final(s).operations@, job_operations@, job_operations@.len() as int),
{
    let ghost ops0 = s.operations@;
    let ghost n = ops0.len() as int;
    let mut batch_operation_ids: Vec<Vec<OperationId>> = Vec::new();
    let mut b: usize = 0;
    while b < batch_count
        invariant
            0 <= b <= batch_count,
            batch_operation_ids@.len() == b,
            forall|k: int| 0 <= k < b ==> (#[trigger] batch_operation_ids@[k])@.len() == 0,
        decreases batch_count - b,
    {
        batch_operation_ids.push(Vec::new());
        b = b + 1;
    }
    proof {
        assert forall|k: int| 0 <= k < batch_count implies (#[trigger] batch_operation_ids@[k])@ == ops_in_batch(s.operations@, k, 0) by {
            assert(batch_operation_ids@[k]@ =~= Seq::<usize>::empty());
        }
    }
    let mut j: usize = 0;
    while j < job_operations.len()
        invariant
            fresh(s),
            s.resource_groups@ == old(s).resource_groups@,
            s.batches@ == old(s).batches@,
            s.batches@.len() == batch_count,
            job_operations@.len() > 0 ==> batch_count > 0,
            chains_laid_out(job_operations@, n),
            ops0 == old(s).operations@,
            n == ops0.len(),
            s.operations@.len() == n,
            0 <= j <= job_operations@.len(),
            forall|i: int| 0 <= i < n ==> #[trigger] same_but_batch(ops0[i], s.operations@[i]),
            batch_operation_ids@.len() == batch_count,
            forall|k: int| 0 <= k < batch_count ==> (#[trigger] batch_operation_ids@[k])@
                == ops_in_batch(s.operations@, k, chain_start(job_operations@, j as int)),
            chains_share_batch(s.operations@, job_operations@, j as int),
        decreases job_operations@.len() - j,
    {
        proof {
            lemma_chain_start_mono(job_operations@, j + 1, job_operations@.len() as int);
        }
        let head_batch = random_count(rng, 0, batch_count - 1);
        let len = job_operations[j].len();
        let ghost cs = chain_start(job_operations@, j as int);
        let mut i: usize = 0;
        while i < len
            invariant
                fresh(s),
                s.resource_groups@ == old(s).resource_groups@,
                s.batches@ == old(s).batches@,
                s.batches@.len() == batch_count,
                batch_count > 0,
                head_batch < batch_count,
                chains_laid_out(job_operations@, n),
                0 <= j < job_operations@.len(),
                len == job_operations@[j as int]@.len(),
                cs == chain_start(job_operations@, j as int),
                cs + len <= n,
                ops0 == old(s).operations@,
                n == ops0.len(),
                s.operations@.len() == n,
                0 <= i <= len,
                forall|ii: int| 0 <= ii < n ==> #[trigger] same_but_batch(ops0[ii], s.operations@[ii]),
                batch_operation_ids@.len() == batch_count,
                forall|k: int| 0 <= k < batch_count ==> (#[trigger] batch_operation_ids@[k])@
                    == ops_in_batch(s.operations@, k, cs + i),
                chains_share_batch(s.operations@, job_operations@, j as int),
                forall|k: int| 0 <= k < i && k < len - 1
                    ==> #[trigger] s.operations@[job_operations@[j as int]@[k] as int].assigned_batch_id == head_batch,
            decreases len - i,
        {
            let op_id = job_operations[j][i];
            proof {
                assert(op_id == cs + i);
            }
            let mut batch_id: BatchId = head_batch;
            if i == len - 1 {
                if random_time(rng, 0, 99) < 30 {
                    batch_id = random_count(rng, 0, batch_count - 1);
                }
            }
            let ghost s0 = *s;
            let ghost lists0 = batch_operation_ids@;
            s.operations[op_id].assigned_batch_id = batch_id;
            batch_operation_ids[batch_id].push(op_id);
            proof {
                let ops = s.operations@;
                assert forall|ii: int| 0 <= ii < n implies #[trigger] same_but_batch(ops0[ii], ops[ii]) by {
                    assert(same_but_batch(ops0[ii], s0.operations@[ii]));
                }
                assert forall|ii: int| 0 <= ii < n implies #[trigger] same_but_batch(s0.operations@[ii], ops[ii]) by {
                    assert(same_but_batch(ops0[ii], s0.operations@[ii]));
                }
                assert forall|ii: int| 0 <= ii < ops.len() implies (#[trigger] ops[ii]).assigned_batch_id < s.batches@.len() by {
                    if ii != op_id {
                        assert(ops[ii] == s0.operations@[ii]);
                    }
                }
                lemma_rebatch(s0, *s);
                assert forall|j2: int, k: int| 0 <= j2 < j && 0 <= k < job_operations@[j2]@.len() - 1
                    implies #[trigger] ops[job_operations@[j2]@[k] as int].assigned_batch_id
                        == ops[job_operations@[j2]@[0] as int].assigned_batch_id by {
                    lemma_chain_start_mono(job_operations@, j2 + 1, j as int);
                    assert(job_operations@[j2]@[k] == chain_start(job_operations@, j2) + k);
                    assert(job_operations@[j2]@[0] == chain_start(job_operations@, j2));
                    assert(s0.operations@[job_operations@[j2]@[k] as int].assigned_batch_id
                        == s0.operations@[job_operations@[j2]@[0] as int].assigned_batch_id);
                }
                assert forall|k: int| 0 <= k < i + 1 && k < len - 1
                    implies #[trigger] ops[job_operations@[j as int]@[k] as int].assigned_batch_id == head_batch by {
                    assert(job_operations@[j as int]@[k] == cs + k);
                    if k < i {
                        assert(s0.operations@[job_operations@[j as int]@[k] as int].assigned_batch_id == head_batch);
                    }
                }
                assert forall|k: int| 0 <= k < batch_count implies (#[trigger] batch_operation_ids@[k])@
                    == ops_in_batch(ops, k, cs + i + 1) by {
                    lemma_ops_in_batch_frame(s0.operations@, ops, k, cs + i);
                    if k != batch_id {
                        assert(batch_operation_ids@[k] == lists0[k]);
                    }
                }
            }
            i = i + 1;
        }
        proof {
            assert(chain_start(job_operations@, j + 1) == cs + len);
            let ops = s.operations@;
            assert forall|j2: int, k: int| 0 <= j2 < j + 1 && 0 <= k < job_operations@[j2]@.len() - 1
                implies #[trigger] ops[job_operations@[j2]@[k] as int].assigned_batch_id
                    == ops[job_operations@[j2]@[0] as int].assigned_batch_id by {
                if j2 == j {
                    assert(ops[job_operations@[j2]@[0] as int].assigned_batch_id == head_batch);
                }
            }
        }
        j = j + 1;
    }
    batch_operation_ids
}

/// `ops_in_batch` lists, in increasing order, exactly the operations below
/// `m` that belong to batch `b`.
pub proof fn lemma_ops_in_batch(ops: Seq<Operation>, b: int, m: int)
    requires
        0 <= m <= ops.len(),
        m <= usize::MAX + 1,
    ensures
        forall|k: int| 0 <= k < ops_in_batch(ops, b, m).len() ==> #[trigger] ops_in_batch(ops, b, m)[k] < m,
        forall|x: int, y: int| 0 <= x < y < ops_in_batch(ops, b, m).len()
            ==> #[trigger] ops_in_batch(ops, b, m)[x] < #[trigger] ops_in_batch(ops, b, m)[y],
        ops_in_batch(ops, b, m).no_duplicates(),
        forall|i: int| 0 <= i < m ==> (ops_in_batch(ops, b, m).contains(i as usize) <==> #[trigger] ops[i].assigned_batch_id == b),
    decreases m,
{
    if m > 0 {
        lemma_ops_in_batch(ops, b, m - 1);
        let p = ops_in_batch(ops, b, m - 1);
        let q = ops_in_batch(ops, b, m);
        assert forall|x: int, y: int| 0 <= x < y < q.len() implies #[trigger] q[x] < #[trigger] q[y] by {
            if ops[m - 1].assigned_batch_id == b && y == q.len() - 1 {
                assert(q[x] == p[x]);
            } else {
                assert(q[x] == p[x] && q[y] == p[y]);
            }
        }
        assert forall|i: int| 0 <= i < m implies (q.contains(i as usize) <==> #[trigger] ops[i].assigned_batch_id == b) by {
            if ops[m - 1].assigned_batch_id == b {
                assert(q == p.push((m - 1) as usize));
                if i < m - 1 {
                    if q.contains(i as usize) {
                        let k = choose|k: int| 0 <= k < q.len() && q[k] == i as usize;
                        assert(k != q.len() - 1);
                        assert(p[k] == i as usize);
                    }
                    if p.contains(i as usize) {
                        let k = choose|k: int| 0 <= k < p.len() && p[k] == i as usize;
                        assert(q[k] == i as usize);
                    }
                } else {
                    assert(q[q.len() - 1] == i as usize);
                }
            } else {
                if i == m - 1 && q.contains(i as usize) {
                    let k = choose|k: int| 0 <= k < q.len() && q[k] == i as usize;
                }
            }
        }
    }
}

proof fn lemma_chain_start_bounds(jobs: Seq<Vec<OperationId>>, j: int, lo: int, hi: int)
    requires
        0 <= j <= jobs.len(),
        0 <= lo,
        forall|k: int| 0 <= k < jobs.len() ==> lo <= (#[trigger] jobs[k])@.len() <= hi,
    ensures
        j * lo <= chain_start(jobs, j) <= j * hi,
    decreases j,
{
    if j > 0 {
        lemma_chain_start_bounds(jobs, j - 1, lo, hi);
        assert(lo <= jobs[j - 1]@.len() <= hi);
        assert(j * lo == (j - 1) * lo + lo) by (nonlinear_arith);
        assert(j * hi == (j - 1) * hi + hi) by (nonlinear_arith);
    } else {
        assert(j * lo == 0 && j * hi == 0) by (nonlinear_arith)
            requires
                j == 0;
    }
}

proof fn lemma_total_dur_bound(ops: Seq<Operation>, m: int, d: int)
    requires
        0 <= m <= ops.len(),
        forall|i: int| 0 <= i < ops.len() ==> (#[trigger] ops[i]).duration <= d,
    ensures
        total_dur(ops, m) <= m * d,
    decreases m,
{
    if m > 0 {
        lemma_total_dur_bound(ops, m - 1, d);
        assert(m * d == (m - 1) * d + d) by (nonlinear_arith);
    } else {
        assert(m * d == 0) by (nonlinear_arith)
            requires
                m == 0;
    }
}

proof fn lemma_max_batch_start_bound(batches: Seq<Batch>, c: int)
    requires
        c >= 0,
        forall|b: int| 0 <= b < batches.len() ==> (#[trigger] batches[b]).start_time <= c,
    ensures
        crate::sums::max_batch_start(batches) <= c,
    decreases batches.len(),
{
    if batches.len() > 0 {
        assert forall|b: int| 0 <= b < batches.drop_last().len() implies (#[trigger] batches.drop_last()[b]).start_time <= c by {
            assert(batches.drop_last()[b] == batches[b]);
        }
        lemma_max_batch_start_bound(batches.drop_last(), c);
        assert(batches[batches.len() - 1].start_time <= c);
    }
}

proof fn lemma_idle_resources(rs: Seq<crate::worker::Resource>)
    requires
        forall|r: int| 0 <= r < rs.len() ==> (#[trigger] rs[r]).allocations@.len() == 0,
    ensures
        crate::placement::resources_max_end(rs) == 0,
    decreases rs.len(),
{
    if rs.len() > 0 {
        assert forall|r: int| 0 <= r < rs.drop_last().len() implies (#[trigger] rs.drop_last()[r]).allocations@.len() == 0 by {
            assert(rs.drop_last()[r] == rs[r]);
        }
        lemma_idle_resources(rs.drop_last());
        assert(rs[rs.len() - 1].allocations@.len() == 0);
    }
}

proof fn lemma_idle_groups(gs: Seq<ResourceGroup>)
    requires
        forall|g: int| 0 <= g < gs.len() ==> (#[trigger] gs[g]).next_available_time == 0
            && forall|r: int| 0 <= r < gs[g].resources@.len() ==> (#[trigger] gs[g].resources@[r]).allocations@.len() == 0,
    ensures
        crate::placement::groups_max_end(gs) == 0,
    decreases gs.len(),
{
    if gs.len() > 0 {
        assert forall|g: int| 0 <= g < gs.drop_last().len() implies (#[trigger] gs.drop_last()[g]).next_available_time == 0
            && forall|r: int| 0 <= r < gs.drop_last()[g].resources@.len() ==> (#[trigger] gs.drop_last()[g].resources@[r]).allocations@.len() == 0 by {
            assert(gs.drop_last()[g] == gs[g]);
        }
        lemma_idle_groups(gs.drop_last());
        let last = gs[gs.len() - 1];
        assert(last.next_available_time == 0);
        lemma_idle_resources(last.resources@);
    }
}

proof fn lemma_unplaced_execute_time(ops: Seq<Operation>, m: int)
    requires
        0 <= m <= ops.len(),
        forall|i: int| 0 <= i < ops.len() ==> (#[trigger] ops[i]).scheduled_span is None,
    ensures
        crate::placement::execute_time_upto(ops, m) == 0,
    decreases m,
{
    if m > 0 {
        lemma_unplaced_execute_time(ops, m - 1);
    }
}

/// `ops` has an edge from `u` to `v`.
pub open spec fn linked(ops: Seq<Operation>, u: int, v: int) -> bool {
    succs(ops, u).contains(v as usize)
}

/// The edges of `after` are those of `before` together with the pairs of
/// `draws`, each from an operation to a later one.
pub open spec fn edges_added(before: Seq<Operation>, after: Seq<Operation>, draws: Seq<(usize, usize)>) -> bool {
    &&& forall|k: int| 0 <= k < draws.len() ==> (#[trigger] draws[k]).0 < draws[k].1 < before.len()
    &&& forall|u: int, v: int| 0 <= u < before.len() && 0 <= v < before.len()
        ==> (#[trigger] linked(after, u, v) <==> linked(before, u, v) || draws.contains((u as usize, v as usize)))
}

/// Adds `count` edges, each from a random operation to a random later one,
/// skipping an edge that is already there.
fn add_extra_precedences(s: &mut Schedule, rng: &mut StdRng, global_order: &Vec<OperationId>, count: usize)
    requires
        fresh(old(s)),
        global_order@ == id_order(old(s).operations@.len() as int),
        count > 0 ==> global_order@.len() >= 2,
    ensures
        fresh(final(s)),
        final(s).resource_groups@ == old(s).resource_groups@,
        final(s).batches@ == old(s).batches@,
        final(s).operations@.len() == old(s).operations@.len(),
        forall|i: int| 0 <= i < old(s).operations@.len() ==> same_but_links(#[trigger] final(s).operations@[i], old(s).operations@[i]),
        exists|draws: Seq<(usize, usize)>| draws.len() == count
            && #[trigger] edges_added(old(s).operations@, final(s).operations@, draws),
{
    let num_ops = global_order.len();
    let ghost ops0 = s.operations@;
    let ghost mut draws: Seq<(usize, usize)> = Seq::empty();
    let mut e: usize = 0;
    while e < count
        invariant
            fresh(s),
            s.resource_groups@ == old(s).resource_groups@,
            s.batches@ == old(s).batches@,
            ops0 == old(s).operations@,
            s.operations@.len() == ops0.len(),
            num_ops == ops0.len(),
            global_order@ == id_order(num_ops as int),
            count > 0 ==> num_ops >= 2,
            0 <= e <= count,
            forall|i: int| 0 <= i < ops0.len() ==> same_but_links(#[trigger] s.operations@[i], ops0[i]),
            draws.len() == e,
            edges_added(ops0, s.operations@, draws),
        decreases count - e,
    {
        let a_idx = random_count(rng, 0, num_ops - 2);
        let b_idx = random_count(rng, a_idx + 1, num_ops - 1);
        let op_a = global_order[a_idx];
        let op_b = global_order[b_idx];
        let ghost ops_mid = s.operations@;
        let ghost draws1 = draws.push((op_a, op_b));
        proof {
            assert(op_a == a_idx && op_b == b_idx);
            assert forall|u: int, v: int| 0 <= u < ops0.len() && 0 <= v < ops0.len() implies
                (#[trigger] draws1.contains((u as usize, v as usize)) <==> draws.contains((u as usize, v as usize))
                    || (u == op_a && v == op_b)) by {
                if draws.contains((u as usize, v as usize)) {
                    let k = choose|k: int| 0 <= k < draws.len() && draws[k] == (u as usize, v as usize);
                    assert(draws1[k] == draws[k]);
                }
                if u == op_a && v == op_b {
                    assert(draws1[draws.len() as int] == (op_a, op_b));
                }
                if draws1.contains((u as usize, v as usize)) {
                    let k = choose|k: int| 0 <= k < draws1.len() && draws1[k] == (u as usize, v as usize);
                    if k < draws.len() {
                        assert(draws[k] == draws1[k]);
                    }
                }
            }
        }
        if !ids_contain(&s.operations[op_a].successor_ids, op_b) {
            add_forward_edge(s, op_a, op_b);
            proof {
                assert forall|i: int| 0 <= i < ops0.len() implies same_but_links(#[trigger] s.operations@[i], ops0[i]) by {
                    assert(same_but_links(s.operations@[i], ops_mid[i]));
                    assert(same_but_links(ops_mid[i], ops0[i]));
                }
                let ops1 = s.operations@;
                assert forall|u: int, v: int| 0 <= u < ops0.len() && 0 <= v < ops0.len() implies
                    (#[trigger] linked(ops1, u, v) <==> linked(ops_mid, u, v) || (u == op_a && v == op_b)) by {
                    if u == op_a {
                        assert(succs(ops1, u) == succs(ops_mid, u).push(op_b));
                        if linked(ops_mid, u, v) {
                            let k = choose|k: int| 0 <= k < succs(ops_mid, u).len() && succs(ops_mid, u)[k] == v as usize;
                            assert(succs(ops1, u)[k] == v as usize);
                        }
                        if v == op_b {
                            assert(succs(ops1, u)[succs(ops_mid, u).len() as int] == op_b);
                        }
                        if linked(ops1, u, v) {
                            let k = choose|k: int| 0 <= k < succs(ops1, u).len() && succs(ops1, u)[k] == v as usize;
                            if k < succs(ops_mid, u).len() {
                                assert(succs(ops_mid, u)[k] == v as usize);
                            }
                        }
                    } else {
                        assert(succs(ops1, u) == succs(ops_mid, u));
                    }
                }
            }
        } else {
            proof {
                assert(linked(ops_mid, op_a as int, op_b as int));
            }
        }
        proof {
            draws = draws1;
        }
        e = e + 1;
    }
}

proof fn lemma_dur_sum_frame(a: Seq<Operation>, b: Seq<Operation>, idxs: Seq<usize>)
    requires
        forall|k: int| 0 <= k < idxs.len() ==> #[trigger] a[idxs[k] as int].duration == b[idxs[k] as int].duration,
    ensures
        dur_sum_of(a, idxs) == dur_sum_of(b, idxs),
    decreases idxs.len(),
{
    if idxs.len() > 0 {
        assert forall|k: int| 0 <= k < idxs.drop_last().len() implies #[trigger] a[idxs.drop_last()[k] as int].duration
            == b[idxs.drop_last()[k] as int].duration by {
            assert(idxs.drop_last()[k] == idxs[k]);
        }
        lemma_dur_sum_frame(a, b, idxs.drop_last());
        assert(a[idxs[idxs.len() - 1] as int].duration == b[idxs[idxs.len() - 1] as int].duration);
    }
}

/// Generates a scheduling problem from `settings`, driven by a random
/// generator seeded with `settings.random_seed`: one resource group per
/// size, `batch_count` batches with random start times and priorities,
/// `operation_chains_count` chains of operations (see `add_chains`), a
/// random batch per chain (its last operation sometimes in another one),
/// due times, and extra edges from random operations to random later ones.
/// A batch is due `due_slack(total)` after its start, where `total` adds up
/// the durations of its operations (summed wide, so it cannot overflow);
/// `extra_precedence_count(n)` extra edges are tried for `n` operations.
pub fn generate_schedule(
    settings: &GenerationSettings,
    due_slack: impl Fn(u128) -> Time,
    extra_precedence_count: impl Fn(usize) -> usize,
) -> (r: Schedule)
    requires
        settings.generable(),
        forall|t: u128| call_requires(due_slack, (t,)),
        forall|t: u128, d: Time| call_ensures(due_slack, (t,), d) ==> settings.max_batch_start_time + d <= Time::MAX,
        forall|n: usize| call_requires(extra_precedence_count, (n,)),
        forall|n: usize, m: usize| call_ensures(extra_precedence_count, (n,), m) && m > 0 ==> n >= 2,
    ensures
        fresh(&r),
        has_topological_order(r.operations@),
        r.in_degrees_fit(),
        total_duration(r.operations@) <= Time::MAX ==> forall|strategy: SortStrategy| #[trigger] r.strategy_fits(strategy),
        r.resource_groups@.len() == settings.resource_group_sizes@.len(),
        forall|g: int| 0 <= g < settings.resource_group_sizes@.len() ==> {
            let grp = #[trigger] r.resource_groups@[g];
            &&& grp.id == g
            &&& grp.resources@.len() == settings.resource_group_sizes@[g]
            &&& grp.next_available_time == 0
            &&& forall|k: int| 0 <= k < grp.resources@.len() ==> (#[trigger] grp.resources@[k]).id == k
                && grp.resources@[k].allocations@.len() == 0
        },
        r.batches@.len() == settings.batch_count,
        forall|b: int| 0 <= b < settings.batch_count ==> {
            let bt = #[trigger] r.batches@[b];
            &&& bt.id == b
            &&& bt.start_time <= settings.max_batch_start_time
            &&& bt.priority <= settings.max_batch_priority
            &&& bt.operation_ids@ == ops_in_batch(r.operations@, b, r.operations@.len() as int)
            &&& dur_sum_of(r.operations@, bt.operation_ids@) <= u128::MAX
            &&& bt.start_time <= bt.due_time
            &&& call_ensures(due_slack, (dur_sum_of(r.operations@, bt.operation_ids@) as u128,), (bt.due_time - bt.start_time) as Time)
        },
        settings.operation_chains_count * settings.min_opearions_per_chain <= r.operations@.len()
            <= settings.operation_chains_count * settings.max_opearions_per_chain,
        forall|i: int| 0 <= i < r.operations@.len()
            ==> settings.min_duration() <= (#[trigger] r.operations@[i]).duration <= settings.max_duration(),
        total_duration(r.operations@) <= settings.operation_chains_count * settings.max_opearions_per_chain * settings.max_duration(),
        horizon(r.operations@, r.batches@, r.resource_groups@) <= settings.max_batch_start_time,
        (forall|g: int| 0 <= g < settings.resource_group_sizes@.len() ==> #[trigger] settings.resource_group_sizes@[g] > 0)
            ==> groups_staffed(r.operations@, r.resource_groups@),
        exists|jobs: Seq<Vec<OperationId>>, cross: Seq<Option<usize>>, draws: Seq<(usize, usize)>|
            #[trigger] generated_links(r.operations@, jobs, cross, draws)
            && jobs.len() == settings.operation_chains_count
            && chains_laid_out(jobs, r.operations@.len() as int)
            && chains_share_batch(r.operations@, jobs, jobs.len() as int)
            && (forall|j: int| 0 <= j < jobs.len() ==> settings.min_opearions_per_chain <= (#[trigger] jobs[j])@.len()
                <= settings.max_opearions_per_chain)
            && (exists|count: usize| #[trigger] call_ensures(extra_precedence_count, (r.operations@.len() as usize,), count)
                && draws.len() == count),
{
    let mut rng = seeded_rng(settings.random_seed);
    let mut schedule = Schedule::new();
    let resource_group_ids = add_groups(&mut schedule, &settings.resource_group_sizes);
    let ghost groups = schedule.resource_groups@;
    add_batches(&mut schedule, &mut rng, settings);
    let ghost batches0 = schedule.batches@;
    let (job_operations, global_order) = add_chains(&mut schedule, &mut rng, settings, &resource_group_ids);
    let ghost ops_c = schedule.operations@;
    let batch_operation_ids = assign_batches(&mut schedule, &mut rng, settings.batch_count, &job_operations);
    let ghost ops = schedule.operations@;
    let ghost n = ops.len() as int;
    let op_count = schedule.operations.len();
    proof {
        assert(op_count == n);
        lemma_chain_start_bounds(job_operations@, job_operations@.len() as int,
            settings.min_opearions_per_chain as int, settings.max_opearions_per_chain as int);
        assert forall|i: int| 0 <= i < n implies settings.min_duration() <= (#[trigger] ops[i]).duration <= settings.max_duration() by {
            assert(same_but_batch(ops_c[i], ops[i]));
            assert(settings.min_duration() <= ops_c[i].duration <= settings.max_duration());
        }
        lemma_total_dur_bound(ops, n, settings.max_duration());
        let cm = settings.operation_chains_count * settings.max_opearions_per_chain;
        assert(n * settings.max_duration() <= cm * settings.max_duration()) by (nonlinear_arith)
            requires
                n <= cm,
                settings.max_duration() >= 0;
        lemma_total_dur_bound(ops, n, Time::MAX as int);
        assert(n * Time::MAX <= usize::MAX * Time::MAX) by (nonlinear_arith)
            requires
                0 <= n <= usize::MAX;
        assert(total_duration(ops) < u128::MAX);
    }
    let mut b: usize = 0;
    while b < settings.batch_count
        invariant
            fresh(&schedule),
            schedule.operations@ == ops,
            schedule.resource_groups@ == groups,
            n == ops.len(),
            n <= usize::MAX,
            total_duration(ops) < u128::MAX,
            batch_operation_ids@.len() == settings.batch_count,
            forall|k: int| 0 <= k < settings.batch_count ==> (#[trigger] batch_operation_ids@[k])@ == ops_in_batch(ops, k, n),
            forall|t: u128| call_requires(due_slack, (t,)),
            forall|t: u128, d: Time| call_ensures(due_slack, (t,), d) ==> settings.max_batch_start_time + d <= Time::MAX,
            schedule.batches@.len() == settings.batch_count,
            batches0.len() == settings.batch_count,
            forall|k: int| 0 <= k < settings.batch_count ==> {
                let bt = #[trigger] batches0[k];
                &&& bt.id == k
                &&& bt.start_time <= settings.max_batch_start_time
                &&& bt.priority <= settings.max_batch_priority
            },
            0 <= b <= settings.batch_count,
            forall|k: int| b <= k < settings.batch_count ==> #[trigger] schedule.batches@[k] == batches0[k],
            forall|k: int| 0 <= k < b ==> {
                let bt = #[trigger] schedule.batches@[k];
                &&& bt.id == k
                &&& bt.start_time == batches0[k].start_time
                &&& bt.priority == batches0[k].priority
                &&& bt.operation_ids@ == ops_in_batch(ops, k, n)
                &&& dur_sum_of(ops, bt.operation_ids@) <= u128::MAX
                &&& bt.start_time <= bt.due_time
                &&& call_ensures(due_slack, (dur_sum_of(ops, bt.operation_ids@) as u128,), (bt.due_time - bt.start_time) as Time)
            },
        decreases settings.batch_count - b,
    {
        let len = batch_operation_ids[b].len();
        let ghost list = batch_operation_ids@[b as int]@;
        proof {
            lemma_ops_in_batch(ops, b as int, n);
        }
        let mut total: u128 = 0;
        let mut k: usize = 0;
        while k < len
            invariant
                schedule.operations@ == ops,
                n == ops.len(),
                n <= usize::MAX,
                total_duration(ops) < u128::MAX,
                0 <= b < batch_operation_ids@.len(),
                list == batch_operation_ids@[b as int]@,
                list == ops_in_batch(ops, b as int, n),
                list.no_duplicates(),
                forall|x: int| 0 <= x < list.len() ==> #[trigger] list[x] < n,
                len == list.len(),
                0 <= k <= len,
                total == dur_sum_of(ops, list.take(k as int)),
            decreases len - k,
        {
            let op_id = batch_operation_ids[b][k];
            proof {
                let pre = list.take(k + 1);
                assert(pre.drop_last() =~= list.take(k as int));
                assert(pre.no_duplicates()) by {
                    assert forall|x: int, y: int| 0 <= x < pre.len() && 0 <= y < pre.len() && x != y implies pre[x] != pre[y] by {
                        assert(pre[x] == list[x] && pre[y] == list[y]);
                    }
                }
                assert forall|x: int| 0 <= x < pre.len() implies #[trigger] pre[x] < ops.len() by {
                    assert(pre[x] == list[x]);
                }
                lemma_dur_sum_distinct(ops, pre);
                assert(pre[k as int] == op_id);
            }
            total = total + schedule.operations[op_id].duration as u128;
            k = k + 1;
        }
        proof {
            assert(list.take(len as int) =~= list);
        }
        let slack = due_slack(total);
        let due = schedule.batches[b].start_time + slack;
        let ghost batches_before = schedule.batches@;
        schedule.batches[b].due_time = due;
        let ids = batch_operation_ids[b].clone();
        proof {
            assert(ids@ =~= list);
        }
        schedule.batches[b].operation_ids = ids;
        proof {
            assert forall|kk: int| 0 <= kk < schedule.batches@.len() && kk != b
                implies #[trigger] schedule.batches@[kk] == batches_before[kk] by {}
        }
        b = b + 1;
    }
    let ghost ops_d = schedule.operations@;
    let ghost batches_d = schedule.batches@;
    let num_ops = global_order.len();
    let max_extra = extra_precedence_count(num_ops);
    add_extra_precedences(&mut schedule, &mut rng, &global_order, max_extra);
    proof {
        let r = schedule;
        let ops_r = r.operations@;
        // the links: chains, the extra link of each chain, and the drawn pairs
        let jobs = job_operations@;
        let cross = choose|cross: Seq<Option<usize>>| #[trigger] chain_links_only(ops_c, jobs, cross);
        let draws = choose|draws: Seq<(usize, usize)>| draws.len() == max_extra
            && #[trigger] edges_added(ops_d, ops_r, draws);
        assert forall|u: int, v: int| 0 <= u < ops_r.len() && 0 <= v < ops_r.len() implies
            (#[trigger] linked(ops_r, u, v) <==> chain_link(jobs, u, v) || cross_link(jobs, cross, u, v)
                || draws.contains((u as usize, v as usize))) by {
            assert(same_but_batch(ops_c[u], ops[u]));
            assert(linked(ops_c, u, v) == linked(ops_d, u, v));
        }
        assert(generated_links(ops_r, jobs, cross, draws));
        assert(num_ops == ops_r.len() as usize);
        assert(chains_share_batch(ops_r, jobs, jobs.len() as int)) by {
            assert forall|j: int, k: int| 0 <= j < jobs.len() && 0 <= k < jobs[j]@.len() - 1
                implies #[trigger] ops_r[jobs[j]@[k] as int].assigned_batch_id == ops_r[jobs[j]@[0] as int].assigned_batch_id by {
                lemma_chain_start_mono(jobs, j + 1, jobs.len() as int);
                assert(jobs[j]@[k] == chain_start(jobs, j) + k);
                assert(jobs[j]@[0] == chain_start(jobs, j));
                assert(same_but_links(ops_r[jobs[j]@[k] as int], ops[jobs[j]@[k] as int]));
                assert(same_but_links(ops_r[jobs[j]@[0] as int], ops[jobs[j]@[0] as int]));
                assert(ops[jobs[j]@[k] as int].assigned_batch_id == ops[jobs[j]@[0] as int].assigned_batch_id);
            }
        }
        assert(call_ensures(extra_precedence_count, (ops_r.len() as usize,), max_extra) && draws.len() == max_extra);
        lemma_forward_edges_acyclic(ops_r);
        lemma_simple_in_degrees(&r);
        assert forall|i: int| 0 <= i < n implies (#[trigger] ops_r[i]).assigned_batch_id == ops[i].assigned_batch_id
            && ops_r[i].duration == ops[i].duration by {
            assert(same_but_links(ops_r[i], ops[i]));
        }
        lemma_copy_total(ops, ops_r, n);
        assert forall|bb: int| 0 <= bb < settings.batch_count implies {
            let bt = #[trigger] r.batches@[bb];
            &&& bt.id == bb
            &&& bt.start_time <= settings.max_batch_start_time
            &&& bt.priority <= settings.max_batch_priority
            &&& bt.operation_ids@ == ops_in_batch(ops_r, bb, n)
            &&& dur_sum_of(ops_r, bt.operation_ids@) <= u128::MAX
            &&& bt.start_time <= bt.due_time
            &&& call_ensures(due_slack, (dur_sum_of(ops_r, bt.operation_ids@) as u128,), (bt.due_time - bt.start_time) as Time)
        } by {
            let bt = r.batches@[bb];
            lemma_ops_in_batch_frame(ops, ops_r, bb, n);
            lemma_ops_in_batch(ops, bb, n);
            assert forall|k: int| 0 <= k < bt.operation_ids@.len() implies #[trigger] ops[bt.operation_ids@[k] as int].duration
                == ops_r[bt.operation_ids@[k] as int].duration by {
                assert(bt.operation_ids@[k] < n);
            }
            lemma_dur_sum_frame(ops, ops_r, bt.operation_ids@);
        }
        assert forall|i: int| 0 <= i < n implies settings.min_duration() <= (#[trigger] ops_r[i]).duration <= settings.max_duration() by {
            assert(same_but_links(ops_r[i], ops[i]));
            assert(settings.min_duration() <= ops[i].duration);
        }
        if total_duration(ops_r) <= Time::MAX {
            assert forall|strategy: SortStrategy| #[trigger] r.strategy_fits(strategy) by {
                assert forall|v: int| 0 <= v < ops_r.len() implies #[trigger] crate::strategy::succ_dur_sum(ops_r, v) <= Time::MAX by {
                    assert(simple_at(ops_r, v));
                    lemma_dur_sum_distinct(ops_r, succs(ops_r, v));
                }
            }
        }
        lemma_max_batch_start_bound(r.batches@, settings.max_batch_start_time as int);
        lemma_idle_groups(r.resource_groups@);
        lemma_unplaced_execute_time(ops_r, n);
        if forall|g: int| 0 <= g < settings.resource_group_sizes@.len() ==> #[trigger] settings.resource_group_sizes@[g] > 0 {
            assert forall|i: int| 0 <= i < ops_r.len() && (#[trigger] ops_r[i]).scheduled_span is None
                implies r.resource_groups@[ops_r[i].assigned_resource_group_id as int].resources@.len() > 0 by {
                let g = ops_r[i].assigned_resource_group_id as int;
                assert(0 <= g < r.resource_groups@.len());
                assert(settings.resource_group_sizes@[g] > 0);
            }
        }
    }
    schedule
}

proof fn lemma_copy_total(a: Seq<Operation>, b: Seq<Operation>, m: int)
    requires
        0 <= m <= a.len(),
        a.len() == b.len(),
        forall|i: int| 0 <= i < a.len() ==> (#[trigger] a[i]).duration == b[i].duration,
    ensures
        total_dur(a, m) == total_dur(b, m),
    decreases m,
{
    if m > 0 {
        lemma_copy_total(a, b, m - 1);
        assert(a[m - 1].duration == b[m - 1].duration);
    }
}

} // verus!
