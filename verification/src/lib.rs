//! Note-vault engine: markdown parsing, index planning and knowledge-graph
//! construction over plain values, with machine-checked contracts.

pub mod clock;
pub mod commands;
pub mod error;
pub mod graph;
pub mod indexer;
pub mod local_graph;
pub mod matcher;
pub mod parser;
pub mod paths;
pub mod records;
pub mod template;
pub mod text;
pub mod vault;
pub mod yaml;
