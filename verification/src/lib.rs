//! A verified node-graph engine: a store of named items forming a directed
//! graph, structural edit operations with reference-counted sharing, a
//! name-keyed document codec, and a memoized aggregation evaluator.

pub mod algorithm;
pub mod codec;
pub mod decimal;
pub mod editor;
pub mod error;
pub mod evaluate;
pub mod laws;
pub mod messages;
pub mod names;
pub mod store;

pub use algorithm::Algorithm;
