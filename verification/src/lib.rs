//! Type reconstruction for a smart-contract decompiler: a grammar parser that
//! turns signature strings into type descriptors, a renderer for decoded
//! values, and a heuristic that infers types from bit-masking behaviour.
pub mod descriptor;
pub mod error;
pub mod formatter;
pub mod inferencer;
pub mod parser;
pub mod strutil;
