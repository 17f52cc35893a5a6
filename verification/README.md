# rt_matchmaking

A real-time skill-based matchmaking engine, verified with Verus.

Requests are bucketed by skill rating. A scheduler hands out tickets, one per
bucket, to ground allocator threads; each ticket leases a window of buckets
around its anchor, forms matchings from it, and comes back to be readmitted.

## Layout

- `src/` — the verified library.
  - `matchmaking/utils.rs`: offset-indexed windows over containers.
  - `matchmaking/config.rs`: queue parameters and their builder.
  - `matchmaking/ground_allocation.rs`: one ground allocation session.
  - `matchmaking/scheduling/`: request buckets and leases, ticket states,
    the ready queue and waiting lane, contention and the empty hold, and the
    scheduling table that ties them together.
  - `orchestration/`: socket framing, thread events, and the scheduler
    thread's decisions (`SchedulerCore`).
  - `generator/`: requests and their numbering.
- `tests/` — tests of the library.
- `app/` — the processes: sockets, threads, logging, the floating-point
  resize and retry policy, and request sampling. One binary runs as the
  matchmaker (the default), or as `generator` or `validator` when given that
  word as its first argument.
