use rcpsp::job::{Batch, Operation};
use rcpsp::leaderboard::{accumulate, run_seed_parallel, run_seed_serial, sort_results_by_time, StrategyStats};
use rcpsp::schedule::Schedule;
use rcpsp::strategy::SortStrategy;
use rcpsp::worker::ResourceGroup;

fn fresh_stats() -> Vec<StrategyStats> {
    SortStrategy::all_except_random().iter().map(|&s| StrategyStats::new(s)).collect()
}

fn chain_problem(resources: usize) -> Schedule {
    let mut s = Schedule::new();
    s.add_resource_group(ResourceGroup::new(0, resources));
    s.add_batch(Batch::new(0, 0, 10, 0));
    s.add_operation(Operation::new(0, 2, 0, 0));
    s.add_operation(Operation::new(1, 3, 0, 0));
    s.add_operation(Operation::new(2, 1, 0, 0));
    s.add_precedence(0, 1);
    s.add_precedence(0, 2);
    s
}

#[test]
fn new_stats_are_zero() {
    let s = StrategyStats::new(SortStrategy::EarliestDueDate);
    assert_eq!(s.strategy, SortStrategy::EarliestDueDate);
    assert_eq!(s.total_time, 0);
    assert_eq!(s.rank_sum, 0);
    assert_eq!(s.run_count, 0);
}

#[test]
fn results_sort_by_time_stably() {
    let mut results = vec![(0, 5), (1, 3), (2, 5), (3, 1)];
    sort_results_by_time(&mut results);
    assert_eq!(results, vec![(3, 1), (1, 3), (0, 5), (2, 5)]);
}

#[test]
fn accumulate_adds_times_and_places() {
    let mut stats = fresh_stats();
    let mut results = vec![(0, 5), (1, 3), (2, 5), (3, 1)];
    accumulate(&mut results, &mut stats);
    assert_eq!(results, vec![(3, 1), (1, 3), (0, 5), (2, 5)]);
    assert_eq!((stats[3].total_time, stats[3].rank_sum, stats[3].run_count), (1, 1, 1));
    assert_eq!((stats[1].total_time, stats[1].rank_sum, stats[1].run_count), (3, 2, 1));
    assert_eq!((stats[0].total_time, stats[0].rank_sum, stats[0].run_count), (5, 3, 1));
    assert_eq!((stats[2].total_time, stats[2].rank_sum, stats[2].run_count), (5, 4, 1));
    assert_eq!((stats[4].total_time, stats[4].rank_sum, stats[4].run_count), (0, 0, 0));
    let mut more = vec![(4, 7), (0, 2)];
    accumulate(&mut more, &mut stats);
    assert_eq!((stats[0].total_time, stats[0].rank_sum, stats[0].run_count), (7, 4, 2));
    assert_eq!((stats[4].total_time, stats[4].rank_sum, stats[4].run_count), (7, 2, 1));
}

#[test]
fn serial_seed_ranks_every_strategy() {
    let base = chain_problem(1);
    let mut stats = fresh_stats();
    run_seed_serial(&base, &mut stats);
    for (i, s) in stats.iter().enumerate() {
        assert_eq!(s.run_count, 1);
        assert_eq!(s.total_time, 6);
        // equal times keep the strategy order
        assert_eq!(s.rank_sum, i + 1);
    }
    assert!(base.operations.iter().all(|op| op.scheduled_span.is_none()));
}

#[test]
fn parallel_seed_ranks_every_strategy() {
    let base = chain_problem(2);
    let mut stats = fresh_stats();
    run_seed_parallel(&base, &mut stats);
    let mut places: Vec<usize> = stats.iter().map(|s| s.rank_sum).collect();
    places.sort();
    assert_eq!(places, (1..=10).collect::<Vec<usize>>());
    for s in &stats {
        assert_eq!(s.run_count, 1);
        assert_eq!(s.total_time, 5);
    }
}

#[test]
fn unsolvable_seed_changes_nothing() {
    let mut base = Schedule::new();
    base.add_resource_group(ResourceGroup::new(0, 0));
    base.add_batch(Batch::new(0, 0, 10, 0));
    base.add_operation(Operation::new(0, 1, 0, 0));
    let mut stats = fresh_stats();
    run_seed_serial(&base, &mut stats);
    run_seed_parallel(&base, &mut stats);
    for s in &stats {
        assert_eq!((s.total_time, s.rank_sum, s.run_count), (0, 0, 0));
    }
}
