//! Arithmetic and protocol core of a transparent proof system: fixed-width
//! 256-bit integers, a Montgomery prime field, a symbolic constraint algebra
//! and the ordering rules of the proof-generation pipeline.

pub mod u256;
pub mod field;
pub mod constraint;
pub mod helper;
pub mod prover;
