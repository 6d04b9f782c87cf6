# tape_machine

A machine that runs a program of eight one-byte commands with several workers
on one endless tape, written in Verus.

- `src/payload.rs` unpacks the source text from a type.
- `src/program.rs` parses it; `[` and `]` become jumps to each other.
- `src/lcg.rs` draws the table that shuffles the program counter.
- `src/tape.rs` is the tape.
- `src/machine.rs` steps a worker: everything but input, output and scheduling.
- `src/sha2.rs` is incremental SHA-256, `src/sha2_model.rs` the function that it
  computes, `src/fingerprint.rs` the digest that a run reports.
- `src/bytes.rs` holds the big-endian encodings.
- The `_laws` files state what holds of these across calls.

`app/` is the program around the library: one thread per worker, standard input
and output. The machine stands behind one lock, which a worker holds for the
length of a step. Nothing in `src/` is trusted without proof.
