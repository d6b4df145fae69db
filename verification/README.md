# matchmaker

A 5v5 matchmaking engine whose logic is verified with Verus.

Players join a queue with a skill rating. Workers take the longest-waiting
player as a seed, scan for others within a rating window that widens with the
wait, claim ten of them, split them into the two most even teams of five, and
record the match. A Reaper returns the players of claims that were never
completed.

- `src/` is the verified library. Each function states what it returns and what
  it changes; functions named `law_...` state what holds of the library as a
  whole. `engine/runs.rs` has those that hold of any sequence of steps: unless
  somebody joins the queue a second time, no player is in two matches, and the
  counters account for everyone. Functions that read a clock have a sibling
  ending in `_at` or `_after` that takes the reading as an argument.
- `tests/` runs the library on concrete values.
- `app/` is the service around it: environment, HTTP routes, worker tasks and
  shutdown.

What is believed without proof is marked `external_body` or
`assume_specification` in `src/`: the `DashMap` that stores the players
(`engine/primary.rs`), the clocks (`clock.rs`, `utils.rs`), the wake signal
(`engine/signal.rs`), random identifiers (`engine/record.rs`), and reading numbers
and writing UUIDs (`text.rs`).

The service is configured by environment variables, all of which have defaults:
`SERVER_PORT`, `WORKER_COUNT`, `WORKER_TICK_MS`, `STALE_CLAIM_TIMEOUT_MS`,
`RELAXATION_STAGE_1_MS` to `RELAXATION_STAGE_4_MS`, and
`RELAXATION_STAGE_1_DELTA` to `RELAXATION_STAGE_5_DELTA`.
