# symbolic_eval

Symbolic expression evaluation for a Typst plugin: parse expressions and
user-defined functions, sample them over a Cartesian grid of real or complex
parameter domains, or integrate a system of ODEs whose right-hand sides are
given symbolically.

## Layout

- `src/` is the library, verified with Verus. It decides what is parsed and
  in which order, which error is reported, how constants are resolved, how
  each domain is sampled (endpoints pinned exactly, the real axis varying
  fastest in a complex rectangle), how the grid of all combinations is laid
  out (the last domain varying fastest), when a complex result can be made
  real, and how a trajectory becomes rows `[t, y_0, y_1, ...]`. The symbolic
  algebra system, the floating-point arithmetic and the ODE solver are handed
  in as closures, whose results the contracts speak of.
  - `error`: the error types and the messages they carry.
  - `run`: a lazy pass of a parser over a list, stopping at the first failure.
  - `expressions`: parsing into `Function` and `Expressions`, constants, and
    compiling into an evaluator.
  - `evaluation`: sampling domains, the Cartesian grid, real and complex
    evaluation.
  - `ode`: the trajectory rows of an integrated system.
  - `wasm`: the plugin's entry points on decoded arguments.
- `app/` is the host side: the CBOR codec, the `serde` and `thiserror` copies
  of the library's types, the `symbolica` parsers and evaluators, the
  `peroxide` integrators, and the byte-level plugin entry points.
- `tests/` exercises the library with small stand-in parsers and numbers.
