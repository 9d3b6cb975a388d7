//! Local, source-backed code facts: the deterministic extractors, the
//! result presentation, and the request validation of the CodeFacts tools.
pub mod cli;
pub mod digest;
pub mod error;
pub mod indexer;
pub mod json;
pub mod laws;
pub mod lsp;
pub mod mcp;
pub mod order;
pub mod presentation;
pub mod service;
pub mod text;
pub mod types;
