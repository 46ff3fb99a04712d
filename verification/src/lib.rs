//! A project-bookmark registry: short names mapped to filesystem paths,
//! with a favorites set, a bounded most-recent-first history, and a
//! pending "go to" path, persisted as a single JSON document.

pub mod cli;
pub mod config;
pub mod doc;
pub mod laws;
pub mod listing;
pub mod model;
