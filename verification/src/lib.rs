//! A personal "digital memory" agent: captures shell commands and clipboard
//! contents into a content-addressed store and serves natural-language
//! retrieval over it. This crate holds the verified core: the store with its
//! invariants, capture deduplication, co-occurrence tracking, the fingerprint
//! cache, the query planner and the search executor. I/O shells live outside.
pub mod text;
pub mod cache;
pub mod capture;
pub mod codec;
pub mod fingerprint;
pub mod intent;
pub mod llm;
pub mod maintenance;
pub mod planner;
pub mod privacy;
pub mod sample;
pub mod search;
pub mod seqx;
pub mod settings;
pub mod store;
pub mod types;
pub mod writer;
