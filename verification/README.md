# AHPCL

The Advanced High-Performance Calculations Language takes numbers seriously: decimals and
rationals are exact, overflow is an error, and a result that has to be rounded says so.

This crate is the language behind the syntax tree, verified with Verus:

- `src/eval` — exact decimals and rationals, and the interpreter that gives programs their
  meaning. `semantics.rs` says what a program means; `eval.rs` runs it.
- `src/sema` — the checks made before a program runs: types, shapes and signs
  (`check.rs`, against `typing.rs`), and range analysis (`verify.rs` and `touch.rs`, against
  `analysis.rs`), which `soundness.rs` shows to be sound on blocks of whole numbers.
- `src/codegen` — the native backend: `compile.rs` lowers a program to the machine
  operations that `lowering.rs` describes; `wellformed.rs` checks the result. `machine.rs`
  says what lowered code does when it runs. That a program prints compiled what it prints
  interpreted is proved in `correct.rs` of programs on single values and arrays with
  functions (`scalars.rs`, `vectors.rs`, `bulk.rs` and `language.rs` say which), and in
  `gathering.rs` of programs on whole numbers with vectors that are listed or that loops
  collect. `boxes.rs` relates a pointer to the array it stands for, `meeting.rs` and
  `picking.rs` the arrays of the runtime to those of the interpreter.
- `src/runtime` — the arithmetic that compiled programs call.
- `src/diagnostics` — errors, notes and positions.
- `src/driver` — the command line, and what checking a file comes to.

The files named `laws.rs`, and the last section of some others, state what holds of every
input: sums are exact, a block keeps its names to itself, an expression stays in the range
that analysis gives it, compiled code is well formed.

`app/` is the world around the library: floating point, files, the clock, the C interface
of the runtime, and LLVM. A program that needs an answer from outside stops with a request;
`app/outside.rs` answers it and runs the program again with the answer.

`tests/` holds the tests. `tests/programs.rs` reads programs as they are written, checks
them, interprets them, lowers them and executes the lowered code.
