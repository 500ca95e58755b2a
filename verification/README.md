# strata_k

The verified core of Strata/K, a stratified, semiring-parameterized Datalog:
its answer-set stack, the stratification of negation, positive Datalog
evaluation with incremental maintenance, provenance proof sets, the lexer, and
the CPU layers of the execution engine. Every function under `src/` but one
trusted wrapper (std's `Debug` rendering of a string) is checked by Verus
against its `requires`/`ensures` contract; the laws it states are proved,
as public proof functions or as postconditions. Not every promise of these
parts is stated: the equality of naive and semi-naive runs, for one, is
tested but not proved.

The library owns plain High-IR and Core-IR types. Over them it verifies the
High-IR printer, and the semiring interpreter's parts: values and annotations
(Bool and tropical), relation storage, atom matching and grounding, body
solving (also with one literal ranging over a delta), aggregate rules, and
rounds of the consequence operator, naive and semi-naive, with their
saturation, and whole runs. The database is modelled by its content (each
predicate's arity, semiring and rows), and `run` / `run_semi_naive` are
specified exactly over that model: the EDB loaded into the declared empty
relations, then each stratum saturated in turn, round by round, with the
errors each step can raise. It also verifies the `@asp` declaration check,
the range restriction of rules, and the checker of a High-IR program with
its lowering to Core-IR (`check::strata`: conflicting redeclarations,
undeclared predicates and arities, the least stratification, the
annotation-by-recursion table; `check::program`: range restriction, the
flow of semiring annotations from body to head, the annotation, groundness
and softness of facts; `check::lower`: variable slots, one symbol
dictionary, facts, probabilistic facts and queries, each stated exactly).
The surface parser (and so `strata fmt`), compound terms in Core-IR, and the
provenance evaluator are not part of this library.

## Layout

- `src/asp` — the answer-set layer: non-ground programs and their naive
  grounding over the Herbrand universe (`ground`, `solve`), the normalization
  of choice and cardinality rules, ground programs, stable models by guessing
  the negated atoms (`stable_models_of`), unfounded sets and the
  answer-set test, grounding simplification (with the proof that it keeps the
  answer sets), the aspif encoding, reading a clasp-compatible solver's models
  back, the linear search-guidance oracle.
- `src/check` — stratification of negation (`stratify`), the recursion
  classification (`recursive_preds`), the checker of a program
  (`strata`, `program`) and its lowering to Core-IR (`lower`, whose
  `check_program` runs the whole pipeline), the `@asp` declaration check
  (`asp_decls`), range restriction of rules (`range`) and the check
  diagnostic codes.
- `src/eval` — positive Datalog evaluation and its incremental maintenance by
  Delete/Rederive (`Dred`), whose model is always the least model of the
  current facts; provenance capture (proof DNFs, their product and
  complement); the interpreter: `value` (weights, annotations), `store`
  (relations, the database), `coreir` (the Core-IR), `naive` (matching,
  grounding, body solving, aggregates), `round` (one round of the
  consequence operator, its application, the delta of changed tuples, and
  saturation) and `run` (a program over its EDB, stratum by stratum, naive or
  semi-naive).
- `src/front` — the lexer (longest-match tokens with byte spans, specified by
  the token shapes), the High-IR (`ir`), its printer (`printer`) and the
  frontend's diagnostic codes.
- `src/gpu` — the always-built CPU parts of the execution engine: query planning
  (hypertree decomposition, cost-based variable order), the tensor-contraction
  elimination order and the contraction itself (whose count is the
  nested-loop join count), hash partitioning with the partitioned join and the
  HyperCube triangle count, the CPU simplify-filter over CSR rules, the
  binary-plan intermediate size of the triangle query, and the
  device entry points as they are without a GPU (they report `NotBuilt`).
- `src/cli` — exit codes, argument reading and the rendering of answer atoms.
- `src/text`, `src/math` — decimal numerals and small sequence lemmas.
- `app/` — the `strata` program around the library (process I/O, the external
  solver process, the floating-point graph-network oracle).
- `tests/` — the test suite, run against the compiled library.
