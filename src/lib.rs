//! An incremental, parallel build engine: a target graph with a recipe
//! compiler, a dependency-ordered dispatcher, a staleness oracle and a
//! binary fingerprint cache.
pub mod text;
pub mod token;
pub mod lexer;
pub mod target;
pub mod graph;
pub mod parser;
pub mod cache;
pub mod executor;
