//! A tape machine for a language of eight one-byte commands, and the pieces it
//! is built from.
//!
//! - [`payload`] unpacks a source text from a type.
//! - [`program`] parses a source text.
//! - [`lcg`] draws the table that shuffles the program counter.
//! - [`tape`] is the endless tape.
//! - [`machine`] steps the workers that run a program on a shared tape.
//! - [`sha2`] is incremental SHA-256, and [`fingerprint`] what it is used for.
//!
//! The module [`sha2_model`] holds the function that SHA-256 computes, with its
//! constants. The modules whose names end in `_laws` state what holds across
//! calls.

pub mod bytes;
pub mod fingerprint;
pub mod lcg;
pub mod lcg_laws;
pub mod machine;
pub mod machine_laws;
pub mod payload;
pub mod program;
pub mod program_laws;
pub mod sha2;
pub mod sha2_laws;
pub mod sha2_model;
pub mod tape;
