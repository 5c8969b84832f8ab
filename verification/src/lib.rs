//! stackcut: a deterministic, file-scoped diff-to-stack planner.
//!
//! The library turns a list of changed files (edit units) into an ordered,
//! acyclic stack of reviewable slices, validates plans structurally, and
//! renders the artifacts that accompany a plan.
pub mod text;
pub mod order;
pub mod model;
pub mod classify;
pub mod slug;
pub mod graph;
pub mod validate;
pub mod overrides;
pub mod phases;
pub mod attach;
pub mod digest;
pub mod planner;
pub mod counting;
pub mod laws;
pub mod promises;
pub mod docrefs;
pub mod summary;
pub mod ingest;
pub mod config;
pub mod cli;
