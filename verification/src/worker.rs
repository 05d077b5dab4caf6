use vstd::prelude::*;
use crate::indices::{ResourceGroupId, ResourceId};
use crate::time::{Span, Time, spans_overlap};

verus! {

/// A candidate span `[start, start + duration)` overlaps the allocation `a`.
pub open spec fn overlaps_at(start: int, duration: int, a: Span) -> bool {
    start < a.end && a.start < start + duration
}

/// Index of the first allocation at or after `i` that overlaps the candidate
/// span `[start, start + duration)`, or -1 when there is none.
pub open spec fn first_overlap_from(allocs: Seq<Span>, start: int, duration: int, i: int) -> int
    decreases allocs.len() - i,
{
    if i < 0 || i >= allocs.len() {
        -1
    } else if overlaps_at(start, duration, allocs[i]) {
        i
    } else {
        first_overlap_from(allocs, start, duration, i + 1)
    }
}

/// Index of the first allocation that overlaps the candidate span, or -1.
pub open spec fn first_overlap(allocs: Seq<Span>, start: int, duration: int) -> int {
    first_overlap_from(allocs, start, duration, 0)
}

/// The latest end among the allocations (0 for none).
pub open spec fn max_end(allocs: Seq<Span>) -> int
    decreases allocs.len(),
{
    if allocs.len() == 0 {
        0
    } else {
        let m = max_end(allocs.drop_last());
        if allocs.last().end > m { allocs.last().end as int } else { m }
    }
}

/// Start of the span that `Resource::find_free_span` settles on: starting at
/// `start`, the candidate jumps to the end of the first allocation it
/// overlaps, until it overlaps none.
pub open spec fn free_start(allocs: Seq<Span>, duration: int, start: int) -> int
    decreases max_end(allocs) - start,
{
    let i = first_overlap(allocs, start, duration);
    if 0 <= i < allocs.len() && start < allocs[i].end <= max_end(allocs) {
        free_start(allocs, duration, allocs[i].end as int)
    } else {
        start
    }
}

/// No allocation end is so late that a span of `duration` after it would
/// leave the range of `Time`.
pub open spec fn ends_fit(allocs: Seq<Span>, duration: int) -> bool {
    forall|k: int| 0 <= k < allocs.len() ==> #[trigger] allocs[k].end + duration <= Time::MAX
}

pub proof fn lemma_max_end_bounds(allocs: Seq<Span>)
    ensures
        max_end(allocs) >= 0,
        forall|k: int| 0 <= k < allocs.len() ==> #[trigger] allocs[k].end <= max_end(allocs),
        allocs.len() > 0 ==> exists|k: int| 0 <= k < allocs.len() && allocs[k].end == max_end(allocs),
    decreases allocs.len(),
{
    if allocs.len() > 0 {
        lemma_max_end_bounds(allocs.drop_last());
        assert forall|k: int| 0 <= k < allocs.len() implies #[trigger] allocs[k].end <= max_end(allocs) by {
            if k < allocs.len() - 1 {
                assert(allocs[k] == allocs.drop_last()[k]);
            }
        }
        if allocs.last().end <= max_end(allocs.drop_last()) && allocs.len() > 1 {
            let k = choose|k: int| 0 <= k < allocs.drop_last().len() && allocs.drop_last()[k].end == max_end(allocs.drop_last());
            assert(allocs[k] == allocs.drop_last()[k]);
        } else {
            assert(allocs[allocs.len() - 1].end == max_end(allocs));
        }
    }
}

pub proof fn lemma_first_overlap_from(allocs: Seq<Span>, start: int, duration: int, i: int)
    requires
        0 <= i <= allocs.len(),
    ensures
        ({
            let r = first_overlap_from(allocs, start, duration, i);
            &&& r == -1 || (i <= r < allocs.len() && overlaps_at(start, duration, allocs[r]))
            &&& forall|k: int| i <= k < allocs.len() && (r == -1 || k < r) ==> !overlaps_at(start, duration, #[trigger] allocs[k])
        }),
    decreases allocs.len() - i,
{
    if i < allocs.len() {
        lemma_first_overlap_from(allocs, start, duration, i + 1);
    }
}

/// The span chosen by `free_start` starts no earlier than asked and
/// overlaps no allocation.
pub proof fn lemma_free_start(allocs: Seq<Span>, duration: int, start: int)
    requires
        duration >= 0,
    ensures
        free_start(allocs, duration, start) >= start,
        forall|k: int| 0 <= k < allocs.len() ==> !overlaps_at(free_start(allocs, duration, start), duration, #[trigger] allocs[k]),
        free_start(allocs, duration, start) == start || free_start(allocs, duration, start) <= max_end(allocs),
    decreases max_end(allocs) - start,
{
    lemma_max_end_bounds(allocs);
    lemma_first_overlap_from(allocs, start, duration, 0);
    let i = first_overlap(allocs, start, duration);
    if 0 <= i < allocs.len() {
        assert(allocs[i].end <= max_end(allocs));
        lemma_free_start(allocs, duration, allocs[i].end as int);
    }
}

/// Some allocation overlaps `[v, v + d)`.
pub open spec fn busy_at(allocs: Seq<Span>, v: int, d: int) -> bool {
    exists|j: int| 0 <= j < allocs.len() && #[trigger] overlaps_at(v, d, allocs[j])
}

/// Every start between `start` and the one `free_start` settles on is
/// blocked by some allocation.
pub proof fn lemma_free_start_least(allocs: Seq<Span>, duration: int, start: int, v: int)
    requires
        duration >= 0,
        start <= v < free_start(allocs, duration, start),
    ensures
        busy_at(allocs, v, duration),
    decreases max_end(allocs) - start,
{
    lemma_max_end_bounds(allocs);
    lemma_first_overlap_from(allocs, start, duration, 0);
    let i = first_overlap(allocs, start, duration);
    if 0 <= i < allocs.len() {
        assert(allocs[i].end <= max_end(allocs));
        if v < allocs[i].end {
            assert(overlaps_at(v, duration, allocs[i]));
        } else {
            lemma_free_start_least(allocs, duration, allocs[i].end as int, v);
        }
    }
}

/// When every start from `s` up to `t` is blocked, looking for a free span
/// from `s` finds the same start as looking from `t`.
pub proof fn lemma_free_start_skip(allocs: Seq<Span>, duration: int, s: int, t: int)
    requires
        duration >= 0,
        s <= t,
        forall|v: int| s <= v < t ==> #[trigger] busy_at(allocs, v, duration),
    ensures
        free_start(allocs, duration, s) == free_start(allocs, duration, t),
{
    let a = free_start(allocs, duration, s);
    let b = free_start(allocs, duration, t);
    lemma_free_start(allocs, duration, s);
    lemma_free_start(allocs, duration, t);
    if a < t {
        assert(busy_at(allocs, a, duration));
        let j = choose|j: int| 0 <= j < allocs.len() && #[trigger] overlaps_at(a, duration, allocs[j]);
    }
    if a < b {
        lemma_free_start_least(allocs, duration, t, a);
        let j = choose|j: int| 0 <= j < allocs.len() && #[trigger] overlaps_at(a, duration, allocs[j]);
    }
    if b < a {
        lemma_free_start_least(allocs, duration, s, b);
        let j = choose|j: int| 0 <= j < allocs.len() && #[trigger] overlaps_at(b, duration, allocs[j]);
    }
}

/// Looking for a free span from a later time never finds an earlier one.
pub proof fn lemma_free_start_monotone(allocs: Seq<Span>, duration: int, s: int, t: int)
    requires
        duration >= 0,
        s <= t,
    ensures
        free_start(allocs, duration, s) <= free_start(allocs, duration, t),
{
    let a = free_start(allocs, duration, s);
    let b = free_start(allocs, duration, t);
    lemma_free_start(allocs, duration, s);
    lemma_free_start(allocs, duration, t);
    if b < a {
        lemma_free_start_least(allocs, duration, s, b);
        let j = choose|j: int| 0 <= j < allocs.len() && #[trigger] overlaps_at(b, duration, allocs[j]);
    }
}

/// One machine: the spans of time it is already busy.
pub struct Resource {
    pub id: ResourceId,
    pub allocations: Vec<Span>,
}

/// `b` holds the same values as `a`.
pub open spec fn resource_copy(a: Resource, b: Resource) -> bool {
    &&& b.id == a.id
    &&& b.allocations@ == a.allocations@
}

impl Clone for Resource {
    fn clone(&self) -> (r: Self)
        ensures
            resource_copy(*self, r),
    {
        let allocations = self.allocations.clone();
        proof {
            assert(allocations@ =~= self.allocations@);
        }
        Self { id: self.id, allocations: allocations }
    }
}

impl Resource {
    pub fn new(id: ResourceId) -> (r: Self)
        ensures
            r.id == id,
            r.allocations@ == Seq::<Span>::empty(),
    {
        Self { id: id, allocations: Vec::new() }
    }

    /// Index of the first allocation overlapping `candidate`, if any.
    fn first_overlapping(&self, candidate: &Span) -> (r: Option<usize>)
        requires
            candidate.wf(),
        ensures
            match r {
                Some(i) => i as int == first_overlap(self.allocations@, candidate.start as int, candidate.duration as int),
                None => first_overlap(self.allocations@, candidate.start as int, candidate.duration as int) == -1,
            },
    {
        let ghost allocs = self.allocations@;
        let n = self.allocations.len();
        let mut i: usize = 0;
        while i < n
            invariant
                n == allocs.len(),
                allocs == self.allocations@,
                candidate.wf(),
                0 <= i <= n,
                first_overlap(allocs, candidate.start as int, candidate.duration as int)
                    == first_overlap_from(allocs, candidate.start as int, candidate.duration as int, i as int),
            decreases n - i,
        {
            if candidate.overlaps(&self.allocations[i]) {
                return Some(i);
            }
            i = i + 1;
        }
        None
    }

    /// The first span of `duration` at or after `after_time` that this
    /// resource can take: the candidate jumps to the end of the first
    /// allocation it overlaps until it overlaps none.
    pub fn find_free_span(&self, duration: Time, after_time: Time) -> (r: Option<Span>)
        requires
            after_time + duration <= Time::MAX,
            ends_fit(self.allocations@, duration as int),
        ensures
            r matches Some(s) && s.wf() && s.duration == duration
                && s.start == free_start(self.allocations@, duration as int, after_time as int)
                && s.start >= after_time
                && forall|k: int| 0 <= k < self.allocations@.len()
                    ==> !spans_overlap(s, #[trigger] self.allocations@[k]),
    {
        let ghost allocs = self.allocations@;
        proof {
            lemma_max_end_bounds(allocs);
            lemma_free_start(allocs, duration as int, after_time as int);
        }
        let mut potential_span: Span = Span::new(after_time, duration);
        loop
            invariant
                allocs == self.allocations@,
                ends_fit(allocs, duration as int),
                potential_span.wf(),
                potential_span.duration == duration,
                potential_span.start == after_time || potential_span.start <= max_end(allocs),
                free_start(allocs, duration as int, potential_span.start as int)
                    == free_start(allocs, duration as int, after_time as int),
                max_end(allocs) >= 0,
                forall|k: int| 0 <= k < allocs.len() ==> #[trigger] allocs[k].end <= max_end(allocs),
            decreases max_end(allocs) + after_time - potential_span.start,
        {
            match self.first_overlapping(&potential_span) {
                Some(i) => {
                    proof {
                        lemma_first_overlap_from(allocs, potential_span.start as int, duration as int, 0);
                    }
                    let end = self.allocations[i].end;
                    potential_span = Span::new(end, duration);
                },
                None => {
                    proof {
                        lemma_free_start(allocs, duration as int, after_time as int);
                        assert forall|k: int| 0 <= k < allocs.len() implies !spans_overlap(potential_span, #[trigger] allocs[k]) by {
                            assert(!overlaps_at(potential_span.start as int, duration as int, allocs[k]));
                        }
                    }
                    return Some(potential_span);
                },
            }
        }
    }

    pub fn allocate(&mut self, span: Span)
        ensures
            final(self).id == old(self).id,
            final(self).allocations@ == old(self).allocations@.push(span),
    {
        self.allocations.push(span);
    }
}

/// Smallest end of a last allocation among the resources that have one.
pub open spec fn min_last_end(rs: Seq<Resource>) -> Option<int>
    decreases rs.len(),
{
    if rs.len() == 0 {
        None
    } else {
        let rest = min_last_end(rs.drop_last());
        let a = rs.last().allocations@;
        if a.len() == 0 {
            rest
        } else {
            match rest {
                None => Some(a.last().end as int),
                Some(m) => Some(if (a.last().end as int) < m { a.last().end as int } else { m }),
            }
        }
    }
}

/// The time a resource group reports as its next availability: the
/// smallest last-allocation end over its resources, 0 when none is busy.
pub open spec fn next_available_of(rs: Seq<Resource>) -> int {
    match min_last_end(rs) {
        Some(m) => m,
        None => 0,
    }
}

/// Where `Resource::find_free_span` would place a span on resource `r`.
pub open spec fn free_start_on(r: Resource, duration: int, after_time: int) -> int {
    free_start(r.allocations@, duration, after_time)
}

/// Every resource can take a span of `duration` after any of its allocations.
pub open spec fn all_ends_fit(rs: Seq<Resource>, duration: int) -> bool {
    forall|i: int| 0 <= i < rs.len() ==> ends_fit(#[trigger] rs[i].allocations@, duration)
}

/// `(i, start)` is the first resource with the earliest free start.
pub open spec fn is_best_resource(rs: Seq<Resource>, duration: int, after_time: int, i: int, start: int) -> bool {
    &&& 0 <= i < rs.len()
    &&& start == free_start_on(rs[i], duration, after_time)
    &&& forall|j: int| 0 <= j < rs.len() ==> start <= #[trigger] free_start_on(rs[j], duration, after_time)
    &&& forall|j: int| 0 <= j < i ==> start < #[trigger] free_start_on(rs[j], duration, after_time)
}

/// No resource is free for `[v, v + d)`.
pub open spec fn all_busy_at(rs: Seq<Resource>, v: int, d: int) -> bool {
    forall|r: int| 0 <= r < rs.len() ==> busy_at(#[trigger] rs[r].allocations@, v, d)
}

/// Before the best free start, every resource is busy.
pub proof fn lemma_busy_before_best(rs: Seq<Resource>, duration: int, after_time: int, i: int, start: int, v: int)
    requires
        duration >= 0,
        is_best_resource(rs, duration, after_time, i, start),
        after_time <= v < start,
    ensures
        all_busy_at(rs, v, duration),
{
    assert forall|r: int| 0 <= r < rs.len() implies busy_at(#[trigger] rs[r].allocations@, v, duration) by {
        assert(start <= free_start_on(rs[r], duration, after_time));
        lemma_free_start_least(rs[r].allocations@, duration, after_time, v);
    }
}

/// When the whole group is busy from `s` up to `t`, the best resource from
/// `t` is also the best one from `s`.
pub proof fn lemma_best_from_earlier(rs: Seq<Resource>, duration: int, s: int, t: int, i: int, start: int)
    requires
        duration >= 0,
        s <= t,
        is_best_resource(rs, duration, t, i, start),
        forall|v: int| s <= v < t ==> #[trigger] all_busy_at(rs, v, duration),
    ensures
        is_best_resource(rs, duration, s, i, start),
{
    assert forall|j: int| 0 <= j < rs.len() implies #[trigger] free_start_on(rs[j], duration, s)
        == free_start_on(rs[j], duration, t) by {
        assert forall|v: int| s <= v < t implies #[trigger] busy_at(rs[j].allocations@, v, duration) by {
            assert(all_busy_at(rs, v, duration));
        }
        lemma_free_start_skip(rs[j].allocations@, duration, s, t);
    }
}

/// A set of interchangeable resources.
pub struct ResourceGroup {
    pub id: ResourceGroupId,
    pub resources: Vec<Resource>,
    pub next_available_time: Time,
}

/// `b` holds the same values as `a`, resource by resource.
pub open spec fn group_copy(a: ResourceGroup, b: ResourceGroup) -> bool {
    &&& b.id == a.id
    &&& b.next_available_time == a.next_available_time
    &&& b.resources@.len() == a.resources@.len()
    &&& forall|r: int| 0 <= r < a.resources@.len() ==> #[trigger] resource_copy(a.resources@[r], b.resources@[r])
}

/// Every group of `b` is a copy of the one of `a` at the same index.
pub open spec fn groups_copy(a: Seq<ResourceGroup>, b: Seq<ResourceGroup>) -> bool {
    &&& b.len() == a.len()
    &&& forall|g: int| 0 <= g < a.len() ==> #[trigger] group_copy(a[g], b[g])
}

impl Clone for ResourceGroup {
    fn clone(&self) -> (r: Self)
        ensures
            group_copy(*self, r),
    {
        let mut resources: Vec<Resource> = Vec::new();
        let mut i: usize = 0;
        while i < self.resources.len()
            invariant
                0 <= i <= self.resources@.len(),
                resources@.len() == i,
                forall|k: int| 0 <= k < i ==> #[trigger] resource_copy(self.resources@[k], resources@[k]),
            decreases self.resources@.len() - i,
        {
            resources.push(self.resources[i].clone());
            i = i + 1;
        }
        Self { id: self.id, resources: resources, next_available_time: self.next_available_time }
    }
}

/// Copies every group.
pub(crate) fn clone_groups(groups: &Vec<ResourceGroup>) -> (r: Vec<ResourceGroup>)
    ensures
        groups_copy(groups@, r@),
{
    let mut r: Vec<ResourceGroup> = Vec::new();
    let mut i: usize = 0;
    while i < groups.len()
        invariant
            0 <= i <= groups@.len(),
            r@.len() == i,
            forall|k: int| 0 <= k < i ==> #[trigger] group_copy(groups@[k], r@[k]),
        decreases groups@.len() - i,
    {
        r.push(groups[i].clone());
        i = i + 1;
    }
    r
}

impl ResourceGroup {
    pub fn new(id: ResourceGroupId, resource_count: usize) -> (g: Self)
        ensures
            g.id == id,
            g.resources@.len() == resource_count,
            forall|i: int| 0 <= i < resource_count ==> (#[trigger] g.resources@[i]).id == i
                && g.resources@[i].allocations@.len() == 0,
            g.next_available_time == 0,
    {
        let mut resources: Vec<Resource> = Vec::new();
        let mut i: usize = 0;
        while i < resource_count
            invariant
                0 <= i <= resource_count,
                resources@.len() == i,
                forall|k: int| 0 <= k < i ==> (#[trigger] resources@[k]).id == k
                    && resources@[k].allocations@.len() == 0,
            decreases resource_count - i,
        {
            resources.push(Resource::new(i));
            i = i + 1;
        }
        Self { id: id, resources: resources, next_available_time: 0 }
    }

    fn update_next_available_time(&mut self)
        ensures
            final(self).id == old(self).id,
            final(self).resources@ == old(self).resources@,
            final(self).next_available_time == next_available_of(old(self).resources@),
    {
        let ghost rs = self.resources@;
        let n = self.resources.len();
        let mut best: Option<Time> = None;
        let mut i: usize = 0;
        while i < n
            invariant
                rs == self.resources@,
                n == rs.len(),
                0 <= i <= n,
                match best {
                    Some(b) => min_last_end(rs.take(i as int)) == Some(b as int),
                    None => min_last_end(rs.take(i as int)) is None,
                },
            decreases n - i,
        {
            proof {
                assert(rs.take(i + 1).drop_last() == rs.take(i as int));
            }
            let len = self.resources[i].allocations.len();
            if len > 0 {
                let end = self.resources[i].allocations[len - 1].end;
                match best {
                    None => { best = Some(end); },
                    Some(b) => {
                        if end < b {
                            best = Some(end);
                        }
                    },
                }
            }
            i = i + 1;
        }
        proof {
            assert(rs.take(n as int) == rs);
        }
        self.next_available_time = match best {
            Some(b) => b,
            None => 0,
        };
    }

    /// The resource that can start a span of `duration` at or after
    /// `after_time` earliest (the first such one on ties), with that span.
    pub fn find_best_resource_for_operation(&self, duration: Time, after_time: Time) -> (r: Option<(ResourceId, Span)>)
        requires
            after_time + duration <= Time::MAX,
            all_ends_fit(self.resources@, duration as int),
        ensures
            match r {
                None => self.resources@.len() == 0,
                Some((i, s)) => {
                    &&& is_best_resource(self.resources@, duration as int, after_time as int, i as int, s.start as int)
                    &&& s.wf()
                    &&& s.duration == duration
                },
            },
    {
        let ghost rs = self.resources@;
        let n = self.resources.len();
        let mut best: Option<(ResourceId, Span)> = None;
        let mut i: usize = 0;
        while i < n
            invariant
                rs == self.resources@,
                n == rs.len(),
                0 <= i <= n,
                after_time + duration <= Time::MAX,
                all_ends_fit(rs, duration as int),
                match best {
                    None => i == 0,
                    Some((b, s)) => {
                        &&& 0 <= b < i
                        &&& s.wf()
                        &&& s.duration == duration
                        &&& s.start == free_start_on(rs[b as int], duration as int, after_time as int)
                        &&& forall|j: int| 0 <= j < i ==> s.start <= #[trigger] free_start_on(rs[j], duration as int, after_time as int)
                        &&& forall|j: int| 0 <= j < b ==> s.start < #[trigger] free_start_on(rs[j], duration as int, after_time as int)
                    },
                },
            decreases n - i,
        {
            proof {
                assert(ends_fit(rs[i as int].allocations@, duration as int));
            }
            if let Some(span) = self.resources[i].find_free_span(duration, after_time) {
                match best {
                    None => { best = Some((i, span)); },
                    Some((_, best_span)) => {
                        if span.start < best_span.start {
                            best = Some((i, span));
                        }
                    },
                }
            }
            i = i + 1;
        }
        best
    }

    pub fn allocate_resource(&mut self, resource_id: ResourceId, span: Span)
        requires
            resource_id < old(self).resources@.len(),
        ensures
            final(self).id == old(self).id,
            final(self).resources@.len() == old(self).resources@.len(),
            final(self).resources@[resource_id as int].id == old(self).resources@[resource_id as int].id,
            final(self).resources@[resource_id as int].allocations@
                == old(self).resources@[resource_id as int].allocations@.push(span),
            forall|j: int| 0 <= j < old(self).resources@.len() && j != resource_id
                ==> #[trigger] final(self).resources@[j] == old(self).resources@[j],
            final(self).next_available_time == next_available_of(final(self).resources@),
    {
        self.resources[resource_id].allocate(span);
        self.update_next_available_time();
    }
}

} // verus!
