# redv

A simulator for redstone-style circuits described in a small hardware language
(`logic` definitions, `module` testbenches with `sim` blocks), written in Verus.

## Layout

- `src/` — the verified library:
  - `lexer.rs` — source bytes to tokens, specified by the spec function `lex`;
  - `parser.rs` — tokens to a `Program` (logics, modules, constants, includes);
  - `elab.rs` — elaboration of a logic into circuit nodes, edges and sequential elements;
  - `circuit.rs` — the circuit, its union-find of aliased points, one tick of the
    solver (`step`, the least settled values) and the reachability lints;
  - `interp.rs`, `sim.rs` — testbench execution: variables, instances, ticks, pulses,
    clocks, `assert`/`expect`, `monitor`, `scan`, reports;
  - `strs.rs`, `ast.rs`, `diag.rs` — strings, tables, syntax tree and diagnostics.
- `tests/` — scenario and unit tests that run the library.
- `app/` — the command-line program: argument handling, file and stream I/O, and
  printing of the library's results.
