//! Apple Taiwan product-specification crawler: the verified core.
//!
//! Page parsing, source-preserving extraction, robots rules, model-output
//! validation and the crawler's bookkeeping decisions live here; network,
//! database and HTTP plumbing live in the application around it.
pub mod text;
pub mod models;
pub mod llm;
pub mod json;
pub mod dom;
pub mod pattern;
pub mod apple;
pub mod urls;
pub mod jsonld;
pub mod decimal;
pub mod network;
pub mod crawlers;
pub mod web;
pub mod digest;
pub mod pipeline;
pub mod product;
pub mod laws;


