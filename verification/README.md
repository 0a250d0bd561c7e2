# sre_engine

A regular expression engine that runs compiled patterns (sequences of `u32` codes)
over text or bytes, verified with Verus.

- `src/constants.rs`: the operation, position-assertion and category codes, and the flag sets.
- `src/chars.rs`, `src/charset.rs`: character classes, case mappings, categories and the
  set programs of the `IN` operations.
- `src/strdrive.rs`: the subject (a `str` or bytes), read by character positions and byte
  offsets, with the laws that tie the two together.
- `src/state.rs`, `src/drive.rs`: the matching state, its model (`Env`, `Machine`,
  `Drive`) and the context primitives.
- `src/ops_spec.rs`, `src/ops.rs`: the model of every operation, and the operations proved
  against it.
- `src/engine.rs`: the matching loop, `State::pymatch` and `State::search`, with their laws.
- `src/in_step.rs`: the law that the rounds of the matching loop (all but those that start
  an assertion) keep each context's byte offset at the offset of its character position.
- `src/bounds.rs`: the law that no round of the matching loop moves a position past the end
  of the range.
- `src/rerun.rs`: the law that a match after `reset` runs as a match on a fresh state.
- `app/lib.rs`: the constant types with the `num_enum` and `bitflags` derives, converting
  to and from the library's own types.
