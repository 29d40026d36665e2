//! Hypercube topological routing: the routing AIR's columns and constraints, trace generation
//! for routing events, the host-side hop check, and the benchmark trace builder, all verified.

pub mod field;
pub mod cols;
pub mod bits;
pub mod air;
pub mod event;
pub mod chip;
pub mod laws;
pub mod benchmark;
