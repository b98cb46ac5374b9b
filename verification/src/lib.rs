//! A self-hosted wiki engine whose article storage is an immutable,
//! content-addressed commit graph, with an optimistic-concurrency
//! three-way merge for racing editors, a full-text search index kept
//! consistent with the head revision, and a small framed-message
//! protocol that lets an out-of-process push trigger an index rebuild.

pub mod api;
pub mod article;
pub mod digest;
pub mod forms;
pub mod index;
pub mod ipc;
pub mod laws;
pub mod markdown;
pub mod merge;
pub mod migrations;
pub mod oid;
pub mod password;
pub mod relative_url;
pub mod repo;
pub mod repo_path;
pub mod store;
pub mod templates;
pub mod text;
pub mod user_storage;
