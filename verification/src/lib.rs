//! Structural comparison of JSON documents.
//!
//! A document is flattened into one entry per node, each addressed by a
//! canonical path string, and a second document is then checked against
//! those entries: which paths are missing, which values differ, and which
//! values changed their type.
pub mod json_diff;
