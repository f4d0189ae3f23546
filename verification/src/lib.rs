//! Analyses and optimization passes over Bril programs: basic-block
//! construction, dominators, dead-code elimination, constant propagation,
//! liveness, loop discovery and memory-alias driven dead-store elimination.
pub mod ast;
pub mod dom;
pub mod passes;
