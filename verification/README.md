# que

The front end and static analyzer of Que, a small Lisp, written in Verus.
Every function of the library is verified against its contract.  The
reader, the desugaring and the configuration parser have exact contracts;
the analyzer's contracts state its main rules (an unproven access, divisor
or overflow is reported, what guards, bindings and branch merges do to the
facts, how loops and recursive functions are judged) rather than the whole
of what it reports for every program.

## Layout

- `src/` — the verified library.
  - `text.rs`, `expr.rs`: characters, texts and expressions, with the
    mathematical shapes (`Sexp`) the contracts speak of.
  - `reader.rs`: tokenizing, literal syntax, delimiter reports, reading.
  - `macros.rs`: `letmacro` definitions and their expansion.
  - `desugar.rs`: the surface forms rewritten into core forms; `build`.
  - `program.rs`: merging a program with a standard library, keeping only
    the library definitions it uses.
  - `interval.rs`, `facts.rs`, `state.rs`, `numeric.rs`, `guards.rs`,
    `summaries.rs`: the abstract domain of the analysis.
  - `bounds.rs`, `termination.rs`, `analysis.rs`: the bounds, arithmetic
    and termination checks and their entry points.
  - `project.rs`: `que.toml` configurations, bundle paths and bundle checks.
  - `fusion.rs`: the bindings a fused map/filter/reduce loop sets up for the
    sequence it walks.
  - `wasm_values.rs`, `heap.rs`: assembling the text format, and what the
    runtime needs to read a compiled program's result from its linear memory.
- `tests/` — tests of the library.
- `app/` — file access and the wasmtime runtime around the library.
