# ore_compiler

A small compiler toolkit for Ore, a little expression language, written in Verus: Verus
checks every function under `src/` against its `requires`/`ensures` contract. How much a
contract pins down varies from function to function.

Layout:

- `src/lexer.rs`, `src/pipeline.rs`, `src/ore.rs`, `src/pratt.rs`, `src/dfa.rs`: lexers and
  parsers; the lexers, and the `ore` parser's acceptance, are specified by grammars written
  as spec functions on bytes or tokens. `src/pipeline.rs` also holds a stack machine and the
  proof that the code generated for an expression runs to the expression's value.
- `src/resolver.rs`, `src/checker.rs`, `src/infer.rs`: name resolution, type checking and
  Hindley–Milner inference.
- `src/ir.rs`, `src/lower.rs`, `src/ssa.rs`, `src/opt.rs`, `src/interp.rs`, `src/licm.rs`,
  `src/dataflow.rs`: a CFG intermediate form, lowering, SSA construction, optimisation passes
  and interpreters.
- `src/regalloc.rs`, `src/emulator.rs`, `src/codegen_examples.rs`: register allocation and a
  small machine to run its output.
- `src/sieve.rs`: a rule language for screening records.
- `src/arena.rs`: three stores for expression trees, one of them a `bumpalo` arena reached
  through trusted wrappers.
- `tests/`: tests run against the compiled library.
- `src/dump.rs`: the text listings of CFG and SSA functions, as lines.
- `app/`: demonstration programs that print results and count allocations.
