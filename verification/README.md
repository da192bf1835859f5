# gungraun_runner (flamegraph stacks)

A verified library that turns the call graph of a callgrind run into lines of the
flamegraph "stacks" format, written in Verus.

Layout of `src/`:

- `metrics` — event kinds, per-function metrics, their (saturating) sum and the derived
  cache summary (`L1hits`, `LLhits`, `RamHits`, `TotalRW`, `EstimatedCycles`).
- `path` — source paths split into components (root, `.`, `..`, names) and their order;
  paths with the same components are the same path, and each is shown as written.
- `id` — function identifiers (source file, function, object file), their order and their
  label in a stack.
- `assoc`, `tables`, `sorting` — finite maps kept as key/value sequences, the cost and call
  tables built on them, and sorted arrangements of sets.
- `stacks` — the specification of the stacks: a depth-first walk from the roots that reports
  each function once, with its self cost; and the laws proved about it.
- `flamegraph` — the flamegraph map (`add`, `make_summary`, `to_stack_format`) and the
  parser settings that gather calls, cull the cheap ones and choose the roots.
- `decimal`, `fixture_files` — decimal rendering and the names and contents of the
  expected-stacks fixture files.
- `fixture_programs`, `branching`, `recursive` — what the benchmark fixture programs compute.

`app/` holds the input and output around it: locating the fixtures, writing files,
querying `cargo metadata`, and the entry points of the fixture programs.
