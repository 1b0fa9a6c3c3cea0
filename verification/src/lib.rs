//! Semantic code search over a git repository: the verified core.

pub mod bench;
pub mod cache;
pub mod chunker;
pub mod cli;
pub mod corpus;
pub mod embedder;
pub mod groups;
pub mod indexer;
pub mod json;
pub mod laws;
pub mod mlx_embed;
pub mod notes;
pub mod number;
pub mod order;
pub mod payload;
pub mod repo;
pub mod rows;
pub mod run;
pub mod search;
pub mod sorted;
pub mod store;
pub mod text;
pub mod tokens;
pub mod version;
