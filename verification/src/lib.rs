//! Block-level dataflow analysis, coverage tracking and spectrum-based
//! fault localization for SystemVerilog processor designs.

pub mod agent;
pub mod block;
pub mod cosim;
pub mod coverage;
pub mod dataflow;
pub mod dfb;
pub mod merge;
pub mod mutation;
pub mod mutation_rules;
pub mod lines;
pub mod locate;
pub mod oracle;
pub mod mgr;
pub mod module_blocks;
pub mod param;
pub mod pattern;
pub mod parse;
pub mod position;
pub mod sampler;
pub mod sbfl;
pub mod similarity;
pub mod slicing;
pub mod spectrum;
pub mod suspects;
pub mod text;
pub mod tools;
pub mod tracer;
pub mod utils;
pub mod vlc;
pub mod vote;
pub mod wave;

pub use block::{AstRange, BlockType, CircuitType, CoverState, NodeID, NodeLocate, TimeAnnotation};
