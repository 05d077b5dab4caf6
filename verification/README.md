# rcpsp

Schedule generation for a resource-constrained project scheduling problem,
verified with Verus.

A problem has resource groups (interchangeable resources), batches (a start
time, a due time and a priority) and operations (a duration, a batch, a
resource group and precedence links). The library computes the critical path
of the precedence graph and schedules every operation with the serial or the
parallel schedule generation scheme, ordering ready operations by one of
several strategies. It also generates random problems and keeps a
leaderboard of the strategies.

Layout of `src/`:

- `time`, `job`, `worker`: spans, operations and batches, resources and
  resource groups (free spans, best resource).
- `graph`, `sums`, `placement`: the precedence graph, sums over operations,
  and what a correct placement is.
- `schedule`: the problem and its construction.
- `critical_path`: topological order and the forward/backward passes.
- `strategy`: the strategies and the stable sort of a queue by them.
- `serial`, `parallel`: the two schedule generation schemes.
- `best`: the best schedule over all strategies.
- `generator`: random problems, driven by a seeded generator.
- `leaderboard`: ranking strategies over several problems.

`app/` holds the command-line program: reading the configuration, the
floating-point factors of the generator, printing and writing files.
