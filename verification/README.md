# lumen

A small, statically typed language: a lexer, a parser, a bytecode compiler
and a stack VM, written in Verus with their behaviour stated in contracts
and proved.

## Layout

- `src/token.rs`, `src/lexer.rs`: tokens, and the lexer from source bytes to
  tokens; every token is specified by the lexeme it comes from and the line
  and column of its first byte.
- `src/decimal.rs`: the value of a decimal float literal as the correctly
  rounded binary64 number (ties to even), computed on digit vectors.
- `src/ast.rs`, `src/parser.rs`: the syntax tree and a recursive-descent
  parser, specified by a grammar of spec functions over the tokens.
- `src/compiler.rs`: compilation to typed instructions; the compiled chunks
  are proved well formed (they end in `Halt` or `Return`, and every jump
  lands inside them).
- `src/vm.rs`: the VM, one instruction per step, specified by `step_spec`.
  Printing and floating-point arithmetic are left to the host: a step hands
  them back as a request.
- `src/scopes.rs`, `src/typeck.rs`, `src/interpreter.rs`: nested scopes of
  bindings, and the environments of the type checker and interpreter.
- `app/main.rs`: the command-line REPL and file runner on the VM, with the
  host loop that drives it (printing, float arithmetic, and the text of a
  float in errors). The runner parses, compiles and runs; it has no
  tree-walking interpreter mode, no benchmark mode and no type-check step,
  since the interpreter's evaluation and the type checker's program pass are
  not part of this crate.

Floats are carried as their IEEE-754 bit patterns (`f64::to_bits`).
