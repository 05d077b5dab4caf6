use rcpsp::generator::{generate_schedule, GenerationSettings};
use rcpsp::job::{Batch, Operation};
use rcpsp::schedule::{CriticalPathData, Schedule, ScheduleError};
use rcpsp::strategy::{sort_queue_by_strategy, SortStrategy};
use rcpsp::time::Span;
use rcpsp::worker::{Resource, ResourceGroup};
use std::collections::VecDeque;

/// Operation 0 (2 long) comes before operations 1 (3 long) and 2 (1 long);
/// one batch starting at `start`; one group of `resources` resources.
fn fork_problem(resources: usize, start: u32) -> Schedule {
    let mut s = Schedule::new();
    s.add_resource_group(ResourceGroup::new(0, resources));
    s.add_batch(Batch::new(0, start, 10, 0));
    s.add_operation(Operation::new(0, 2, 0, 0));
    s.add_operation(Operation::new(1, 3, 0, 0));
    s.add_operation(Operation::new(2, 1, 0, 0));
    s.add_precedence(0, 1);
    s.add_precedence(0, 2);
    s
}

/// Every operation is placed, starts no earlier than its batch and after
/// all its predecessors end, and no two operations share a resource at the
/// same time.
fn schedule_is_valid(s: &Schedule) -> bool {
    for op in &s.operations {
        let span = match op.scheduled_span {
            Some(span) => span,
            None => return false,
        };
        if span.end != span.start + op.duration || span.duration != op.duration {
            return false;
        }
        if span.start < s.batches[op.assigned_batch_id].start_time {
            return false;
        }
        for &p in &op.predecessor_ids {
            match s.operations[p].scheduled_span {
                Some(ps) => {
                    if ps.end > span.start {
                        return false;
                    }
                }
                None => return false,
            }
        }
        let r = match op.assigned_resource_id {
            Some(r) => r,
            None => return false,
        };
        for other in &s.operations {
            if other.id != op.id && other.assigned_resource_group_id == op.assigned_resource_group_id
                && other.assigned_resource_id == Some(r)
            {
                if let Some(os) = other.scheduled_span {
                    if os.overlaps(&span) {
                        return false;
                    }
                }
            }
        }
    }
    true
}

fn span_of(s: &Schedule, id: usize) -> (u32, u32) {
    let span = s.operations[id].scheduled_span.expect("operation is placed");
    (span.start, span.end)
}

#[test]
fn span_new_sets_end() {
    let s = Span::new(3, 4);
    assert_eq!(s.start, 3);
    assert_eq!(s.end, 7);
    assert_eq!(s.duration, 4);
}

#[test]
fn spans_overlap_only_when_they_share_time() {
    let a = Span::new(0, 5);
    assert!(a.overlaps(&Span::new(4, 2)));
    assert!(Span::new(4, 2).overlaps(&a));
    assert!(!a.overlaps(&Span::new(5, 2)));
    assert!(!Span::new(5, 2).overlaps(&a));
    assert!(a.overlaps(&Span::new(1, 1)));
}

#[test]
fn operation_new_has_no_links_and_no_placement() {
    let op = Operation::new(4, 7, 1, 2);
    assert_eq!(op.id, 4);
    assert_eq!(op.duration, 7);
    assert_eq!(op.assigned_batch_id, 1);
    assert_eq!(op.assigned_resource_group_id, 2);
    assert!(op.predecessor_ids.is_empty());
    assert!(op.successor_ids.is_empty());
    assert!(op.assigned_resource_id.is_none());
    assert!(!op.is_scheduled());
}

#[test]
fn batch_new_keeps_its_fields() {
    let b = Batch::new(2, 5, 20, 3);
    assert_eq!(b.id, 2);
    assert_eq!(b.start_time, 5);
    assert_eq!(b.due_time, 20);
    assert_eq!(b.priority, 3);
    assert!(b.operation_ids.is_empty());
}

#[test]
fn free_span_jumps_past_overlapping_allocations() {
    let mut r = Resource::new(0);
    assert_eq!(r.find_free_span(3, 2).map(|s| s.start), Some(2));
    r.allocate(Span::new(2, 3));
    r.allocate(Span::new(6, 2));
    // [0, 2) is free
    assert_eq!(r.find_free_span(2, 0).map(|s| s.start), Some(0));
    // 3 units from 0 overlap [2, 5), then [5, 8) overlaps [6, 8)
    assert_eq!(r.find_free_span(3, 0).map(|s| s.start), Some(8));
    // 1 unit fits in [5, 6)
    assert_eq!(r.find_free_span(1, 3).map(|s| s.start), Some(5));
}

#[test]
fn free_span_never_moves_earlier_for_a_later_start() {
    let mut r = Resource::new(0);
    r.allocate(Span::new(2, 3));
    let mut last = 0;
    for after in 0..8 {
        let start = r.find_free_span(2, after).map(|s| s.start).unwrap();
        assert!(start >= last);
        assert!(start >= after);
        last = start;
    }
    assert_eq!(r.find_free_span(2, 1).map(|s| s.start), Some(5));
}

#[test]
fn best_resource_is_the_first_free_earliest() {
    let mut g = ResourceGroup::new(0, 2);
    assert_eq!(g.resources.len(), 2);
    assert_eq!(g.next_available_time, 0);
    g.allocate_resource(0, Span::new(0, 4));
    assert_eq!(g.next_available_time, 4);
    assert_eq!(g.find_best_resource_for_operation(2, 0).map(|(r, s)| (r, s.start)), Some((1, 0)));
    g.allocate_resource(1, Span::new(0, 6));
    assert_eq!(g.next_available_time, 4);
    assert_eq!(g.find_best_resource_for_operation(2, 0).map(|(r, s)| (r, s.start)), Some((0, 4)));
    let empty = ResourceGroup::new(1, 0);
    assert!(empty.find_best_resource_for_operation(2, 0).is_none());
}

#[test]
fn precedences_are_mirrored() {
    let s = fork_problem(1, 0);
    assert_eq!(s.operations[0].successor_ids, vec![1, 2]);
    assert_eq!(s.operations[1].predecessor_ids, vec![0]);
    assert_eq!(s.operations[2].predecessor_ids, vec![0]);
    assert!(s.operations[0].predecessor_ids.is_empty());
}

#[test]
fn critical_path_of_a_fork() {
    let s = fork_problem(1, 0);
    let cp: CriticalPathData = s.compute_critical_path_data().ok().expect("no cycle");
    assert_eq!(cp.earliest_start, vec![0, 2, 2]);
    assert_eq!(cp.earliest_finish, vec![2, 5, 3]);
    assert_eq!(cp.latest_finish, vec![2, 5, 5]);
    assert_eq!(cp.latest_start, vec![0, 2, 4]);
    assert_eq!(cp.float, vec![0, 0, 2]);
    assert_eq!(cp.path_lengths, vec![5, 3, 1]);
}

#[test]
fn critical_path_respects_batch_start() {
    let s = fork_problem(1, 4);
    let cp = s.compute_critical_path_data().ok().expect("no cycle");
    assert_eq!(cp.earliest_start, vec![4, 6, 6]);
    assert_eq!(cp.earliest_finish, vec![6, 9, 7]);
}

#[test]
fn cycle_is_reported() {
    let mut s = Schedule::new();
    s.add_resource_group(ResourceGroup::new(0, 1));
    s.add_batch(Batch::new(0, 0, 10, 0));
    s.add_operation(Operation::new(0, 1, 0, 0));
    s.add_operation(Operation::new(1, 1, 0, 0));
    s.add_precedence(0, 1);
    s.add_precedence(1, 0);
    assert!(matches!(s.compute_critical_path_data(), Err(ScheduleError::CycleDetected)));
    let mut serial = s.clone();
    assert_eq!(serial.compute_serial(SortStrategy::PriorityThenDueTime), Err(ScheduleError::CycleDetected));
    let mut parallel = s.clone();
    assert_eq!(parallel.compute_parallel(SortStrategy::PriorityThenDueTime), Err(ScheduleError::CycleDetected));
}

#[test]
fn cycle_is_reported_before_an_empty_resource_group() {
    let mut s = Schedule::new();
    s.add_resource_group(ResourceGroup::new(0, 0));
    s.add_batch(Batch::new(0, 0, 10, 0));
    s.add_operation(Operation::new(0, 1, 0, 0));
    s.add_operation(Operation::new(1, 1, 0, 0));
    s.add_operation(Operation::new(2, 1, 0, 0));
    s.add_precedence(1, 2);
    s.add_precedence(2, 1);
    let mut serial = s.clone();
    assert_eq!(serial.compute_serial(SortStrategy::ShortestDurationFirst), Err(ScheduleError::CycleDetected));
    let mut parallel = s.clone();
    assert_eq!(parallel.compute_parallel(SortStrategy::ShortestDurationFirst), Err(ScheduleError::CycleDetected));
    for op in &parallel.operations {
        assert!(op.scheduled_span.is_none());
    }
}

#[test]
fn zero_length_operations_are_placed_and_allocated() {
    let mut s = Schedule::new();
    s.add_resource_group(ResourceGroup::new(0, 1));
    s.add_batch(Batch::new(0, 4, 10, 0));
    s.add_operation(Operation::new(0, 0, 0, 0));
    s.add_operation(Operation::new(1, 2, 0, 0));
    s.add_precedence(0, 1);
    for parallel in [false, true] {
        let mut run = s.clone();
        let r = if parallel {
            run.compute_parallel(SortStrategy::PriorityThenDueTime)
        } else {
            run.compute_serial(SortStrategy::PriorityThenDueTime)
        };
        assert_eq!(r, Ok(()));
        assert_eq!(span_of(&run, 0), (4, 4));
        assert_eq!(span_of(&run, 1), (4, 6));
        let allocations = &run.resource_groups[0].resources[0].allocations;
        assert_eq!(allocations.len(), 2);
        assert_eq!((allocations[0].start, allocations[0].end), (4, 4));
        assert_eq!((allocations[1].start, allocations[1].end), (4, 6));
    }
}

#[test]
fn serial_on_one_resource() {
    let mut s = fork_problem(1, 0);
    assert_eq!(s.compute_serial(SortStrategy::PriorityThenDueTime), Ok(()));
    assert!(schedule_is_valid(&s));
    assert_eq!(span_of(&s, 0), (0, 2));
    assert_eq!(span_of(&s, 1), (2, 5));
    assert_eq!(span_of(&s, 2), (5, 6));
    assert_eq!(s.total_execute_time(), 6);
}

#[test]
fn serial_on_two_resources() {
    let mut s = fork_problem(2, 0);
    assert_eq!(s.compute_serial(SortStrategy::PriorityThenDueTime), Ok(()));
    assert!(schedule_is_valid(&s));
    assert_eq!(span_of(&s, 1), (2, 5));
    assert_eq!(s.operations[1].assigned_resource_id, Some(0));
    assert_eq!(span_of(&s, 2), (2, 3));
    assert_eq!(s.operations[2].assigned_resource_id, Some(1));
    assert_eq!(s.total_execute_time(), 5);
}

#[test]
fn serial_follows_the_strategy_order() {
    let mut s = fork_problem(1, 0);
    assert_eq!(s.compute_serial(SortStrategy::ShortestDurationFirst), Ok(()));
    assert!(schedule_is_valid(&s));
    assert_eq!(span_of(&s, 2), (2, 3));
    assert_eq!(span_of(&s, 1), (3, 6));
}

#[test]
fn parallel_on_one_resource() {
    let mut s = fork_problem(1, 0);
    assert_eq!(s.compute_parallel(SortStrategy::PriorityThenDueTime), Ok(()));
    assert!(schedule_is_valid(&s));
    assert_eq!(span_of(&s, 0), (0, 2));
    assert_eq!(span_of(&s, 1), (2, 5));
    assert_eq!(span_of(&s, 2), (5, 6));
    assert_eq!(s.total_execute_time(), 6);
}

#[test]
fn parallel_on_two_resources() {
    let mut s = fork_problem(2, 0);
    assert_eq!(s.compute_parallel(SortStrategy::LongestDurationFirst), Ok(()));
    assert!(schedule_is_valid(&s));
    assert_eq!(span_of(&s, 1), (2, 5));
    assert_eq!(span_of(&s, 2), (2, 3));
    assert_eq!(s.total_execute_time(), 5);
}

#[test]
fn serial_breaks_ties_by_readiness_then_id() {
    // two roots with equal keys: the lower id goes first; then the
    // successors of operation 0 in the order they are listed
    let mut s = Schedule::new();
    s.add_resource_group(ResourceGroup::new(0, 1));
    s.add_batch(Batch::new(0, 0, 10, 0));
    s.add_operation(Operation::new(0, 1, 0, 0));
    s.add_operation(Operation::new(1, 1, 0, 0));
    s.add_operation(Operation::new(2, 1, 0, 0));
    s.add_operation(Operation::new(3, 1, 0, 0));
    s.add_precedence(0, 3);
    s.add_precedence(0, 2);
    assert_eq!(s.compute_serial(SortStrategy::PriorityThenDueTime), Ok(()));
    assert_eq!(span_of(&s, 0), (0, 1));
    assert_eq!(span_of(&s, 1), (1, 2));
    assert_eq!(span_of(&s, 3), (2, 3));
    assert_eq!(span_of(&s, 2), (3, 4));
}

#[test]
fn parallel_follows_the_strategy_order() {
    let mut s = fork_problem(1, 0);
    assert_eq!(s.compute_parallel(SortStrategy::ShortestDurationFirst), Ok(()));
    assert!(schedule_is_valid(&s));
    assert_eq!(span_of(&s, 2), (2, 3));
    assert_eq!(span_of(&s, 1), (3, 6));
    let mut t = fork_problem(1, 0);
    assert_eq!(t.compute_parallel(SortStrategy::LongestDurationFirst), Ok(()));
    assert_eq!(span_of(&t, 1), (2, 5));
    assert_eq!(span_of(&t, 2), (5, 6));
}

#[test]
fn parallel_waits_for_the_batch_start() {
    let mut s = fork_problem(1, 4);
    assert_eq!(s.compute_parallel(SortStrategy::EarliestDueDate), Ok(()));
    assert!(schedule_is_valid(&s));
    assert_eq!(span_of(&s, 0), (4, 6));
    assert_eq!(s.total_execute_time(), 10);
}

#[test]
fn empty_group_cannot_allocate() {
    let mut s = Schedule::new();
    s.add_resource_group(ResourceGroup::new(0, 0));
    s.add_batch(Batch::new(0, 0, 10, 0));
    s.add_operation(Operation::new(0, 1, 0, 0));
    let mut serial = s.clone();
    assert_eq!(serial.compute_serial(SortStrategy::PriorityThenDueTime), Err(ScheduleError::CannotAllocate { operation_id: 0 }));
    let mut parallel = s.clone();
    assert_eq!(
        parallel.compute_parallel(SortStrategy::PriorityThenDueTime),
        Err(ScheduleError::ResourceGroupCannotAllocate { resource_group_id: 0, operation_id: 0 })
    );
}

#[test]
fn every_strategy_gives_a_valid_schedule() {
    for strategy in SortStrategy::all() {
        let mut serial = fork_problem(2, 1);
        assert_eq!(serial.compute_serial(strategy), Ok(()));
        assert!(schedule_is_valid(&serial));
        let mut parallel = fork_problem(2, 1);
        assert_eq!(parallel.compute_parallel(strategy), Ok(()));
        assert!(schedule_is_valid(&parallel));
    }
}

#[test]
fn strategy_lists() {
    let all = SortStrategy::all();
    assert_eq!(all.len(), 11);
    assert_eq!(all[0], SortStrategy::PriorityThenDueTime);
    assert_eq!(all[10], SortStrategy::Random);
    let most = SortStrategy::all_except_random();
    assert_eq!(most.len(), 10);
    assert!(!most.contains(&SortStrategy::Random));
    assert_eq!(&all[..10], &most[..]);
}

fn sorted(s: &Schedule, strategy: SortStrategy, ids: &[usize]) -> Vec<usize> {
    let mut queue: VecDeque<usize> = ids.iter().copied().collect();
    sort_queue_by_strategy(&s.operations, &s.batches, &s.critical_path_data, &mut queue, strategy);
    queue.into_iter().collect()
}

#[test]
fn queue_orders_by_strategy() {
    let mut s = fork_problem(1, 0);
    s.critical_path_data = s.compute_critical_path_data().ok();
    assert_eq!(sorted(&s, SortStrategy::ShortestDurationFirst, &[0, 1, 2]), vec![2, 0, 1]);
    assert_eq!(sorted(&s, SortStrategy::LongestDurationFirst, &[0, 1, 2]), vec![1, 0, 2]);
    assert_eq!(sorted(&s, SortStrategy::MostSuccessorsFirst, &[2, 1, 0]), vec![0, 2, 1]);
    assert_eq!(sorted(&s, SortStrategy::FewestSuccessorsFirst, &[0, 1, 2]), vec![1, 2, 0]);
    assert_eq!(sorted(&s, SortStrategy::LongestSuccessorDuration, &[2, 1, 0]), vec![0, 2, 1]);
    assert_eq!(sorted(&s, SortStrategy::ShortestSuccessorDuration, &[0, 1, 2]), vec![1, 2, 0]);
    assert_eq!(sorted(&s, SortStrategy::LongestCriticalPathFirst, &[2, 1, 0]), vec![0, 1, 2]);
    // one batch: equal keys keep their order
    assert_eq!(sorted(&s, SortStrategy::PriorityThenDueTime, &[2, 0, 1]), vec![2, 0, 1]);
    assert_eq!(sorted(&s, SortStrategy::DueTimeThenPriority, &[1, 2, 0]), vec![1, 2, 0]);
    assert_eq!(sorted(&s, SortStrategy::EarliestDueDate, &[1, 0, 2]), vec![1, 0, 2]);
}

#[test]
fn queue_orders_by_batch_keys() {
    let mut s = Schedule::new();
    s.add_resource_group(ResourceGroup::new(0, 1));
    s.add_batch(Batch::new(0, 0, 30, 1));
    s.add_batch(Batch::new(1, 0, 20, 2));
    s.add_batch(Batch::new(2, 0, 10, 1));
    s.add_operation(Operation::new(0, 1, 0, 0));
    s.add_operation(Operation::new(1, 1, 1, 0));
    s.add_operation(Operation::new(2, 1, 2, 0));
    assert_eq!(sorted(&s, SortStrategy::PriorityThenDueTime, &[0, 1, 2]), vec![2, 0, 1]);
    assert_eq!(sorted(&s, SortStrategy::DueTimeThenPriority, &[0, 1, 2]), vec![2, 1, 0]);
    assert_eq!(sorted(&s, SortStrategy::EarliestDueDate, &[0, 1, 2]), vec![2, 1, 0]);
}

#[test]
fn random_order_is_a_permutation() {
    let s = fork_problem(1, 0);
    let mut out = sorted(&s, SortStrategy::Random, &[2, 0, 1]);
    out.sort();
    assert_eq!(out, vec![0, 1, 2]);
}

#[test]
fn total_execute_time_is_the_latest_end() {
    let mut s = fork_problem(1, 0);
    assert_eq!(s.total_execute_time(), 0);
    s.operations[1].scheduled_span = Some(Span::new(4, 3));
    s.operations[0].scheduled_span = Some(Span::new(0, 2));
    assert_eq!(s.total_execute_time(), 7);
}

#[test]
fn clone_copies_everything() {
    let mut s = fork_problem(2, 0);
    s.compute_serial(SortStrategy::PriorityThenDueTime).ok();
    let c = s.clone();
    assert_eq!(c.operations.len(), 3);
    for i in 0..3 {
        assert_eq!(span_of(&c, i), span_of(&s, i));
        assert_eq!(c.operations[i].successor_ids, s.operations[i].successor_ids);
        assert_eq!(c.operations[i].assigned_resource_id, s.operations[i].assigned_resource_id);
    }
    assert_eq!(c.resource_groups[0].resources[1].allocations.len(), s.resource_groups[0].resources[1].allocations.len());
    assert_eq!(c.batches[0].due_time, 10);
    assert!(c.critical_path_data.is_some());
}

#[test]
fn best_serial_schedule() {
    let base = fork_problem(1, 0);
    let (best, strategy, time) = Schedule::find_best_schedule_serial(&base);
    assert_eq!(time, 6);
    assert_eq!(strategy, SortStrategy::PriorityThenDueTime);
    assert!(schedule_is_valid(&best));
    assert_eq!(best.total_execute_time(), 6);
    assert!(base.operations.iter().all(|op| op.scheduled_span.is_none()));
}

#[test]
fn best_parallel_schedule() {
    let base = fork_problem(2, 0);
    let (best, strategy, time) = Schedule::find_best_schedule_parallel(&base);
    assert_eq!(time, 5);
    assert_eq!(strategy, SortStrategy::PriorityThenDueTime);
    assert!(schedule_is_valid(&best));
}

#[test]
fn best_schedule_without_a_solution() {
    let mut s = Schedule::new();
    s.add_resource_group(ResourceGroup::new(0, 0));
    s.add_batch(Batch::new(0, 0, 10, 0));
    s.add_operation(Operation::new(0, 1, 0, 0));
    let (best, strategy, time) = Schedule::find_best_schedule_serial(&s);
    assert_eq!(time, u32::MAX);
    assert_eq!(strategy, SortStrategy::PriorityThenDueTime);
    assert!(best.operations[0].scheduled_span.is_none());
    let (_, strategy, time) = Schedule::find_best_schedule_parallel(&s);
    assert_eq!(time, u32::MAX);
    assert_eq!(strategy, SortStrategy::PriorityThenDueTime);
}

fn settings(seed: u64) -> GenerationSettings {
    GenerationSettings {
        resource_group_sizes: vec![2, 1],
        operation_chains_count: 4,
        min_opearions_per_chain: 2,
        max_opearions_per_chain: 5,
        min_operation_duration: 1,
        max_operation_duration: 5,
        batch_count: 3,
        max_batch_priority: 4,
        max_batch_start_time: 10,
        random_seed: seed,
    }
}

#[test]
fn generated_schedule_has_the_requested_shape() {
    let cfg = settings(7);
    let s = generate_schedule(&cfg, |t: u128| (2 * t) as u32, |n| n / 2);
    assert_eq!(s.resource_groups.len(), 2);
    assert_eq!(s.resource_groups[0].resources.len(), 2);
    assert_eq!(s.resource_groups[1].resources.len(), 1);
    assert_eq!(s.batches.len(), 3);
    assert!(s.operations.len() >= 8 && s.operations.len() <= 20);
    let mut listed = 0;
    for (b, batch) in s.batches.iter().enumerate() {
        assert_eq!(batch.id, b);
        assert!(batch.start_time <= 10);
        assert!(batch.priority <= 4);
        let total: u32 = batch.operation_ids.iter().map(|&id| s.operations[id].duration).sum();
        assert_eq!(batch.due_time, batch.start_time + 2 * total);
        for &id in &batch.operation_ids {
            assert_eq!(s.operations[id].assigned_batch_id, b);
        }
        listed += batch.operation_ids.len();
    }
    assert_eq!(listed, s.operations.len());
    for (i, op) in s.operations.iter().enumerate() {
        assert_eq!(op.id, i);
        assert!(op.duration >= 1 && op.duration <= 5);
        assert!(op.assigned_resource_group_id < 2);
        for &succ in &op.successor_ids {
            assert!(succ > i);
            assert!(s.operations[succ].predecessor_ids.contains(&i));
        }
        let mut succs = op.successor_ids.clone();
        succs.sort();
        succs.dedup();
        assert_eq!(succs.len(), op.successor_ids.len());
    }
}

#[test]
fn generation_is_fixed_by_the_seed() {
    let a = generate_schedule(&settings(3), |t: u128| t as u32, |n| n);
    let b = generate_schedule(&settings(3), |t: u128| t as u32, |n| n);
    assert_eq!(a.operations.len(), b.operations.len());
    for i in 0..a.operations.len() {
        assert_eq!(a.operations[i].duration, b.operations[i].duration);
        assert_eq!(a.operations[i].assigned_batch_id, b.operations[i].assigned_batch_id);
        assert_eq!(a.operations[i].assigned_resource_group_id, b.operations[i].assigned_resource_group_id);
        assert_eq!(a.operations[i].successor_ids, b.operations[i].successor_ids);
    }
}

#[test]
fn generated_schedules_can_be_scheduled() {
    for seed in 0..5 {
        let base = generate_schedule(&settings(seed), |t: u128| t as u32, |n| n / 3);
        let mut serial = base.clone();
        assert_eq!(serial.compute_serial(SortStrategy::LongestCriticalPathFirst), Ok(()));
        assert!(schedule_is_valid(&serial));
        let mut parallel = base.clone();
        assert_eq!(parallel.compute_parallel(SortStrategy::MostSuccessorsFirst), Ok(()));
        assert!(schedule_is_valid(&parallel));
    }
}

#[test]
fn single_chain_default_shape() {
    let cfg = GenerationSettings {
        resource_group_sizes: vec![1],
        operation_chains_count: 1,
        min_opearions_per_chain: 3,
        max_opearions_per_chain: 3,
        min_operation_duration: 1,
        max_operation_duration: 5,
        batch_count: 1,
        max_batch_priority: 0,
        max_batch_start_time: 0,
        random_seed: 0,
    };
    let s = generate_schedule(&cfg, |t: u128| t as u32, |_| 0);
    assert_eq!(s.operations.len(), 3);
    assert_eq!(s.operations[0].successor_ids, vec![1]);
    assert_eq!(s.operations[1].successor_ids, vec![2]);
    assert!(s.operations[2].successor_ids.is_empty());
    assert_eq!(s.batches[0].operation_ids, vec![0, 1, 2]);
    assert_eq!(s.batches[0].start_time, 0);
    assert_eq!(s.batches[0].priority, 0);
    let total: u32 = s.operations.iter().map(|op| op.duration).sum();
    assert_eq!(s.batches[0].due_time, total);
}

#[test]
fn three_operation_chain_with_fixed_durations() {
    let cfg = GenerationSettings {
        resource_group_sizes: vec![1],
        operation_chains_count: 1,
        min_opearions_per_chain: 3,
        max_opearions_per_chain: 3,
        min_operation_duration: 2,
        max_operation_duration: 2,
        batch_count: 1,
        max_batch_priority: 0,
        max_batch_start_time: 0,
        random_seed: 0,
    };
    let s = generate_schedule(&cfg, |t: u128| (t as f64 * 1.5) as u32, |n| (n as f64 * 0.0) as usize);
    assert_eq!(s.operations.len(), 3);
    for (i, op) in s.operations.iter().enumerate() {
        assert_eq!(op.id, i);
        assert_eq!(op.duration, 2);
        assert_eq!(op.assigned_batch_id, 0);
        assert_eq!(op.assigned_resource_group_id, 0);
        assert!(!op.is_scheduled());
    }
    assert!(s.operations[0].predecessor_ids.is_empty());
    assert_eq!(s.operations[1].predecessor_ids, vec![0]);
    assert_eq!(s.operations[2].predecessor_ids, vec![1]);
    assert_eq!(s.operations[0].successor_ids, vec![1]);
    assert_eq!(s.operations[1].successor_ids, vec![2]);
    assert!(s.operations[2].successor_ids.is_empty());
    assert_eq!(s.batches.len(), 1);
    assert_eq!(s.batches[0].id, 0);
    assert_eq!(s.batches[0].operation_ids, vec![0, 1, 2]);
    assert_eq!(s.batches[0].start_time, 0);
    assert_eq!(s.batches[0].due_time, 9);
    assert_eq!(s.batches[0].priority, 0);
}

#[test]
fn batch_totals_beyond_the_time_range_are_summed_exactly() {
    let cfg = GenerationSettings {
        resource_group_sizes: vec![1],
        operation_chains_count: 2,
        min_opearions_per_chain: 1,
        max_opearions_per_chain: 1,
        min_operation_duration: 3_000_000_000,
        max_operation_duration: 3_000_000_000,
        batch_count: 1,
        max_batch_priority: 0,
        max_batch_start_time: 0,
        random_seed: 5,
    };
    let s = generate_schedule(&cfg, |t: u128| (t / 1000) as u32, |_| 0);
    assert_eq!(s.operations.len(), 2);
    assert_eq!(s.batches[0].operation_ids, vec![0, 1]);
    assert_eq!(s.batches[0].due_time, 6_000_000);
}

#[test]
fn runs_never_beat_the_critical_path() {
    for seed in 0..3 {
        let base = generate_schedule(&settings(seed), |t: u128| t as u32, |n| n / 2);
        for strategy in SortStrategy::all_except_random() {
            let mut serial = base.clone();
            assert_eq!(serial.compute_serial(strategy), Ok(()));
            let mut parallel = base.clone();
            assert_eq!(parallel.compute_parallel(strategy), Ok(()));
            for s in [&serial, &parallel] {
                let cp = s.critical_path_data.as_ref().expect("computed by the run");
                let project_end = cp.earliest_finish.iter().copied().max().unwrap_or(0);
                assert!(s.total_execute_time() >= project_end);
                for (i, op) in s.operations.iter().enumerate() {
                    assert!(op.scheduled_span.unwrap().start >= cp.earliest_start[i]);
                }
            }
        }
    }
}

#[test]
fn generation_draws_varied_values() {
    let mut durations = std::collections::BTreeSet::new();
    let mut counts = std::collections::BTreeSet::new();
    let mut starts = std::collections::BTreeSet::new();
    for seed in 0..20 {
        let s = generate_schedule(&settings(seed), |t: u128| t as u32, |_| 0);
        counts.insert(s.operations.len());
        for op in &s.operations {
            durations.insert(op.duration);
        }
        for b in &s.batches {
            starts.insert(b.start_time);
        }
    }
    assert!(durations.len() > 1);
    assert!(counts.len() > 1);
    assert!(starts.len() > 1);
}

#[test]
fn random_order_changes_the_queue() {
    let mut s = Schedule::new();
    s.add_resource_group(ResourceGroup::new(0, 1));
    s.add_batch(Batch::new(0, 0, 10, 0));
    for i in 0..8 {
        s.add_operation(Operation::new(i, 1, 0, 0));
    }
    let ids: Vec<usize> = (0..8).collect();
    let mut changed = false;
    for _ in 0..50 {
        let out = sorted(&s, SortStrategy::Random, &ids);
        let mut check = out.clone();
        check.sort();
        assert_eq!(check, ids);
        if out != ids {
            changed = true;
        }
    }
    assert!(changed);
}
