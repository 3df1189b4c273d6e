# aoc2023

Solutions to the 2023 Advent of Code puzzles as a Verus library: each
`src/dayN.rs` reads its puzzle input with a parser whose contract is a
grammar written as spec functions, and solves both parts with contracts
that state the answer over a mathematical model of the input. For day 23's
corridor graph and day 25's minimum cut, part of that model is the search
itself, stated step by step as spec functions; laws beside them
tie its results back to the map and the graph: `lemma_path_trail` (the answer
is the length of a trail over the map) and `lemma_cut_run_cut` (every cut the
phases report is a cut of the graph as read, with those side weights) with
`lemma_run_least` (unless the phases stopped early, no cut is lighter).

- `src/text.rs`, `src/grid.rs`: shared byte-level scanning and grid reading.
- `src/arrays.rs`, `src/graphs.rs`: the `ndarray` and `petgraph` types that
  the days hold; each day names their contents and reaches them through
  small trusted wrappers.
- `tests/`: the puzzle examples and further cases, one file per day.
- `app/`: the floating-point half of day 24 (path crossings and the rock's
  throw), computed with `nalgebra` on the hailstones that the verified
  reader returns.
