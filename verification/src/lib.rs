//! Reference-safety analysis for a stack-based bytecode language.
//!
//! The core is a borrow-set abstract domain — symbolic access paths with
//! wildcards, grouped per reference — and an abstract interpreter over it
//! that checks a function body for violations of the borrow discipline:
//! dangling references, conflicting mutable aliases, unsafe destruction of
//! borrowed storage, and returns of references rooted in expiring frames.
//! A fixed-point driver runs the per-instruction transfer rules over the
//! control-flow graph and joins post-states into successor pre-states.
//!
//! Beside the analyzer stand two smaller pieces: a parser for type and
//! value literals, and an interning pool for symbols.

pub mod absint;
pub mod cfg;
pub mod code;
pub mod code_unit_verifier;
pub mod laws;
pub mod parser;
pub mod paths;
pub mod references;
pub mod set;
pub mod state;
pub mod symbol;
