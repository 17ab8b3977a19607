//! Core of a small comment-hosting backend: an in-memory store of comments,
//! an allocator for the smallest free numeric id, and the JSON text format
//! in which the store is persisted.
//!
//! File and network I/O, routing and locking live outside this crate's
//! verified boundary; the store itself, the id allocation rules and the
//! persisted format are specified and proved here.

pub mod codec;
pub mod models;
pub mod store;
