//! Lifetime inference for the functions of an LLVM module: each pointer
//! level of each value gets a lifetime, instructions relate these lifetimes
//! by outlives constraints and equalities, and each function gets a lifetime
//! signature over its parameters.
pub mod dsu;
pub mod ir;
pub mod text;
pub mod utilities;
pub mod lifetimes;
pub mod graph;
pub mod framework;
pub mod analysis;
pub mod results;
pub mod support;
