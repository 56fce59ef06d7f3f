# evm

An interpreter for Ethereum virtual machine bytecode, verified with Verus.

`evm_checked(code, context)` runs `code` against a transaction, a block and a
world state. It returns the final stack, whether the run succeeded, the logs
that were emitted and the returned data. If an instruction cannot be carried
out, for example because the stack is too short or an offset is too large, it
returns `Abort::Fault` instead. `evm(code, context)` returns the result
directly. Its precondition says that the run ends normally.

Layout of `src/`:

- `word.rs`: the 256-bit `Word`, its value as a natural number, and the
  operations that need no outside crate.
- `bigint.rs`: arithmetic on words that `primitive_types` carries out, with
  trusted contracts.
- `keccak.rs`: Keccak-256 from `sha3`.
- `bytes.rs`: big-endian encodings.
- `table.rs`: a word-keyed map for storage and accounts.
- `context.rs`: the public context and result types, with their views.
- `semantics.rs`: the specification. `spec_step` gives the meaning of one
  instruction and `spec_run` / `spec_exec` give the meaning of a whole run.
- `arith.rs`, `machine.rs`, `step.rs`, `interp.rs`: the interpreter. It is
  proved to do what `semantics.rs` says.
- `laws.rs`: properties that hold across instructions, proved from the
  specification.
- `run_laws.rs`: properties of whole runs: memory and storage read back
  what was written across any stretch of instructions that do not write
  there, memory grows in whole words, a larger call-depth budget changes no
  result, and what a CALL reached in a run does to the caller.

`app/main.rs` runs the JSON test cases in `../evm.json`.
