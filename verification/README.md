# sentinel_core

Detection of performance anti-patterns in distributed traces, and comparison of two analysis runs.
The library is written in Rust with Verus contracts: every function in `src/` is proved to do what
its `ensures` clauses say.

## Layout

- `src/detect/` finds anti-patterns in the spans of a trace: N+1 operations, redundant operations,
  slow operations (per trace and across traces), excessive fanout, chatty services, connection pool
  saturation and serialized calls. `laws.rs` states what holds of any workload.
- `src/detect/correlate_cross/` correlates findings of different services over time.
- `src/detect/suggestions/` recognizes frameworks and attaches actionable fixes.
- `src/diff.rs` compares the findings and I/O counts of two runs.
- `src/event.rs`, `src/report.rs` and `src/config.rs` hold the data that goes in and out.
- `src/text.rs`, `src/time.rs`, `src/order.rs`, `src/permutation.rs`, `src/rendering.rs`,
  `src/arith.rs` and `src/wide.rs` hold what the detectors share: texts, timestamps, stable sorting
  and exact arithmetic.
- `tests/` runs the library on concrete workloads.
- `app/` holds serialization, logging and conversion from and to floating point.
