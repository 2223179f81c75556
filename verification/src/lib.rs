//! Reconstruction of a call tree from an instruction-level execution trace of
//! an EVM-style virtual machine, and flattening of that tree into folded
//! stack lines for a flame-graph renderer.
//!
//! The pipeline is: an ordered sequence of [`step::Step`]s (one executed
//! instruction each, with its mapped source snippet and cumulative gas) is
//! replayed by the call-tree builder in [`function_call`], which infers call
//! and return boundaries from opcodes and source-map jump classifications;
//! the resulting tree is flattened by [`flamegraph`] into lines of the form
//! `ancestor;...;name <self-gas>`.

pub mod flamegraph;
pub mod function_call;
pub mod step;
pub mod utils;
