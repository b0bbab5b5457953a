//! Syntactic dependency footprints for symbolically executed instructions.
//!
//! The library models the observable events of a symbolic execution, a
//! region-indexed symbolic memory, the taint engine that traces symbolic
//! values back to the registers and memory reads they came from, the
//! per-opcode footprints folded from execution paths, and the address, data
//! and control dependency queries built on those footprints.
pub mod smt;
pub mod regset;
pub mod taint;
pub mod footprint;
pub mod deps;
pub mod bytes;
pub mod memory;
pub mod stable_memory;
pub mod codec;
pub mod analysis;
pub mod litmus;
pub mod objdump;
pub mod lexer;
