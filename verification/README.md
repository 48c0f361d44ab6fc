# medal

A verified core for decompiling Luau: the syntax tree, the passes that turn
lifted code into readable source, and control-flow graphs in static single
assignment form.

- `src/ast/` holds the syntax tree, its writer and the passes over it: aliases,
  expressions, functions, branches, scopes, declarations and names.
- `src/cfg/` holds functions as graphs of blocks, where their locals come from,
  the facts that recovery goes by, and the schedule of its passes.
- `src/cfg/ssa/` gives every definition a local of its own, joins values where
  paths meet, and moves values into their readers.
- `src/collections.rs`, `src/text.rs` and `src/cfg/graph.rs` state what the
  library takes from hash maps, text and graphs.
- `app/` is the ordinary Rust around the library: floating-point numbers, clocks
  and shared counters, and the loop that runs passes.
- `tests/` runs the library on concrete programs.

Trees are values: a pass takes a block and gives one back. Names live in
`Locals`; a local itself is a number.
