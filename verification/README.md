# forge

A small compiler for typed mathematical expressions, with its logic verified by
Verus.

- `src/ir.rs`, `builder.rs`, `lower.rs`, `array.rs`: the SSA representation and
  how expressions and vectorized programs become it.
- `src/verify.rs`, `dominance.rs`: when a function is well-formed, and its
  dominator tree.
- `src/interp.rs`, `arith.rs`, `float.rs`: what a function computes. Doubles are
  bits; the caller's arithmetic unit computes with them.
- `src/meaning/`: what expressions and the rows of vectorized programs mean,
  and that lowering keeps it. `finished.rs` proves that every expression that
  type-checks is lowered to a function that the optimizer may take, and that
  the optimized function returns the same value and divides by zero exactly
  where the unoptimized one does.
- `src/opt/`: the passes. Each keeps what a function computes, and where it
  divides an integer by zero.
- `src/aarch64/`: emission of AArch64 code, down to bytes. `execute.rs` says
  what the machine does. Three files prove that emitted code returns what its
  function yields: `correct.rs` for one block of integers in registers,
  `flow.rs` for functions without loops whose values fit in registers, and
  `stackflow.rs` for functions without loops whose values are on the stack,
  mixed types and calls of the mathematics library among them. Branches are on
  comparisons of integers or of doubles; nothing is proved of loops, nor of
  the bits of bools. `spilled.rs` covers one block of integers, or of doubles,
  on the stack.
- `src/x64/`: emission of x86-64 code, as operations of an assembler.
  `execute.rs` says what they do. `calls.rs` proves what the operations around
  a call compute, given a callee that keeps to the calling convention.
  `whole.rs` proves that the operations of a whole function compute what its
  instructions stand for, every value in its place: calls, saved registers,
  parameters on the stack and the copies on edges among them. It takes the
  places of the values as they are given, and says nothing of comparisons with
  a NaN.
- `src/memory.rs`: executable pages, never writable and executable at once.
- `src/cli.rs`, `repl.rs`, `print.rs`, `text.rs`, `report.rs`: the command
  line's decisions, texts and messages.
- `src/collections.rs`: small vectors and hash tables of outside crates.
- `app/`: the program around the library.
