//! Splits a structured Bitcoin script into size-bounded chunks in which every
//! conditional is closed, and derives the stack interface of each chunk.

pub mod error;
pub mod script;
pub mod builder;
pub mod split;
pub mod model;
pub mod analyzer;
pub mod chunker;
