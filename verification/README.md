# Response-time analysis of shared-resource task sets

A verified library for the schedulability analysis of tasks with fixed
priorities that share resources: per task, the worst-case execution time
`C`, the blocking time `B` (the longest hold of each used resource by a task
of lower priority), the interference `I` (from tasks of higher priority),
and the response time `R = C + B + I`, either with the busy period taken as
the deadline or as the least solution of the response-time recurrence.

- `src/model.rs`: tasks, traces, and the priority and resource maps derived
  from a task set (`pre_analysis`).
- `src/analysis.rs`: the analysis steps, each with a contract over the spec
  functions defined beside it.
- `src/idmap.rs`: the identifier-keyed map and set the analysis stores its
  results in.
- `src/sums.rs`: sums over finite sets of identifiers.
- `src/laws.rs`: properties that hold for every task set.
- `app/main.rs`: the example program, which prints the analysis of a fixed
  task set (`exact` as first argument selects the exact busy period).
