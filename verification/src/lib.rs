//! An incremental computation engine for continuously changing state:
//! text deltas, a dependency graph with invalidation and scheduling, and a
//! small language pipeline (lexer, parser, symbols, diagnostics) whose
//! incremental results agree with full recomputation.

pub mod text;
pub mod error;
pub mod range;
pub mod id;
pub mod version;
pub mod status;
pub mod timing;
pub mod fingerprint;
pub mod metrics;
pub mod delta;
pub mod buffer;
pub mod graph;
pub mod invalidate;
pub mod topo;
pub mod stats;
pub mod lexer;
pub mod parser;
pub mod defmap;
pub mod symbols;
pub mod diagnostics;
pub mod pipeline;
pub mod store;
pub mod runtime;
pub mod workload;
pub mod install;
pub mod engine;
pub mod budget;
pub mod compare;
pub mod session;
