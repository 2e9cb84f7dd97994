# cujson

Navigation over the tapes of a GPU JSON parser, verified with Verus.

A tape is two `i32` arrays: `structural` holds the 1-based byte offsets of
the structural characters (`{ } [ ] : ,`, and newlines in JSON Lines) between
two artificial entries, and `pair_pos` holds, at each opening bracket, the
index of its closing bracket. The library builds such tapes on the CPU,
navigates them (`Document`, `Node`, JSON Pointer), walks them in one pass
(`Document::visit`, also over ranges of lines), and compares two of them.

## Layout

- `src/tape/` — the tape format and everything over it:
  - `builder.rs`: the CPU reference builder, specified as a fold over the
    input bytes, with the proofs that every tape it builds is a well-formed
    document, points only at structural bytes, and records the deepest
    nesting as its depth;
  - `document.rs`: `Document`/`Node` navigation, specified over the tape;
  - `visit.rs`: the single-pass event walk (`visit` and `visit_range`
    hand a `Visitor` exactly the events of `events()` / `events_range`),
    its range splitting, the proof that adjacent ranges visit like their
    union, and that a successful visit closes every container it opens;
  - `events.rs`: the proofs that, on well-shaped documents, a visit emits
    exactly the events of navigation, and every range `split_lines` gives
    visits successfully, the ranges together giving the whole visit;
  - `diff.rs`: tape comparison and its laws;
  - `text.rs`: UTF-8, whitespace, unescaping and decimal helpers;
  - `escape.rs`: the proof that unescaping any JSON escaping of a string
    gives the string back, never longer.
- `src/cpu.rs` — the CPU parse entry point.
- `src/lib.rs`, `src/error.rs`, `src/pinned.rs`, `src/exceptions.rs` — the GPU
  entry points (which report `CudaNotCompiled` in a build without CUDA),
  errors and their messages, input buffers, and the Python exception classes.
- `src/bench/` — the benchmark's corpus batching (`data.rs`), its checksum
  and visitor (`walk.rs`), the proof that the visitor fed a visit's events
  computes the node walk's checksum (`node_walk.rs`), the proof that
  visiting row ranges separately and adding up gives the whole visit's
  result (`ranges.rs`), and the comparison of two engines' per-row
  checksums (`agree.rs`).
- `src/checks.rs` — the pass/fail tally of the `verify` command.
- `src/status.rs` — the native GPU parser's status codes and the error
  each one is reported as.
- `tests/` — tests of the library.
- `app/` — the command-line tool, the benchmark harness and the Python
  bindings: file and network I/O, threads, timing and floating point.
