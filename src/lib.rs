//! Incremental disassembly of a byte stream into a control-flow graph of
//! basic blocks for one function.
//!
//! - `value`: operand values, read-only and assignable.
//! - `guard`: conditions on control-flow edges.
//! - `mnemonic`: decoded instructions and their IR statements.
//! - `basic_block`: runs of instructions over one interval.
//! - `graph`: the control-flow graph, an arena of vertices and edges.
//! - `index`: the address index and what the graph/index transforms produce.
//! - `decoder`: the decoder interface and how a match is recorded.
//! - `function`: functions, the two transforms and the disassembly driver.
//! - `round_trip`: what survives going from a graph to its index and back.

pub mod value;
pub mod guard;
pub mod mnemonic;
pub mod basic_block;
pub mod graph;
pub mod index;
pub mod decoder;
pub mod function;
pub mod round_trip;
