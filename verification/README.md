# camshaft

A dependency-aware planner for code agents: plans of tasks, milestones,
resources and dependencies are built, checked and analysed, and every answer
is structured JSON.

The planning rules live in a library whose functions carry Verus contracts
and are verified: plan validation (missing references, duplicates, cycles),
parallel dispatch groups, critical chains, bulk plan assembly, plan edits,
templates, sprint bookkeeping, velocity counting, the fan-out and
downstream tasks that the schedule queries report, and the structured error
report. The command-line program around it (`app/`) reads and writes files,
parses arguments and runs the GanttML scheduling engines.

Layout:

- `src/` — the verified library, one module per concern (`validate`,
  `graph`, `parallel`, `chain`, `bulk`, `edits`, `templates`, `schedule`,
  `sprint`, `analysis`, `impact`, `velocity`, `intake`, and the shared `text`,
  `error`, `kinds`, `paths`, `plan`, `dates`).
- `tests/` — tests of the library on concrete plans.
- `app/` — the `camshaft` command line.
