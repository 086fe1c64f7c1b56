# fastforth

A Forth compiler front end and optimizer, written in Verus. The functions in
`src/` are verified against their contracts, except a few small trusted
wrappers around the standard library (Unicode case mapping, Unicode character
classes, and `String::push`), whose doc comments say what is taken on trust.

- `src/frontend/`: lexer, parser, semantic analysis, stack-effect and type
  inference, conversion to SSA form, and SSA validation.
- `src/optimizer/`: the stack-based IR and its passes: constant folding,
  peephole rewrites, inlining, superinstructions, dead code elimination,
  memory optimization, stack caching, type specialization, zero-cost
  abstraction removal, the whole-program optimizer (call graph, dead-word
  removal, single-call inlining, constant propagation, word specialization),
  the call graph of the aggressive inliner (call counts, cycles, bottom-up
  order), data-flow analyses and basic blocks, C code generation, and the
  pipeline that runs them.
- SSA conversion is specified by a model of the code it emits (`gen_words`
  and its companions in `src/frontend/ssa.rs`), and by a model of stack
  depths and errors (`words_depth`).
- `src/text.rs`: decimal text of integers and other string helpers.
- `tests/`: the tests, run against the compiled library.
- `app/`: error types with `Display` (through `thiserror`) and the
  floating-point estimates reported beside the optimizer's counters.
