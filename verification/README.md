# lib — verified decompiler analyses

Analyses of a decompiler's intermediate representation (p-code ops over varnodes, grouped
into basic blocks), written in Verus: each function carries a contract, and Verus proves that
the code meets it, that it cannot panic, and that its loops and recursions terminate.

## Layout

- `src/space.rs` — address spaces, addresses and range lists.
- `src/opcode.rs`, `src/types.rs` — p-code operations and data-types.
- `src/fspec.rs` — calling-convention facts and parameter trials.
- `src/funcdata.rs` — the function under analysis and the editing operations on it; every
  edit keeps the function well formed (every handle names an existing varnode, op or block).
- `src/stackvars.rs` — stack-pointer recovery: the offset system solver, the extra-pop
  analysis and the return-address push model.
- `src/ptrarith.rs`, `src/addtree.rs` — pointer arithmetic: turning sums on pointers into
  `PTRADD`/`PTRSUB` and undoing the ones whose types do not fit.
- `src/ancestor.rs` — the walk deciding whether the data-flow into a parameter is realistic.
- `src/recover.rs` — return-value and call-argument trial decisions, and committing the
  chosen arguments to the call.
- `src/transform.rs` — a planned rewrite of the data-flow, built while the function is only
  read and applied at once.
- `src/splitflow.rs` — splitting a value joined by a PIECE into its two independent halves.
- `src/restrictlocal.rs` — keeping saved-register slots out of the local variables.
- `src/printc.rs` — how constants and casts are written in the C output.

`tests/` holds the executable tests, run against the compiled library.
