//! Deterministic extractors that turn source text into facts.
pub mod endpoints;
pub mod markdown;
pub mod pipeline;
pub mod run;
