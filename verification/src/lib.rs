//! Dependency-resolution engine for downgrading Debian packages.
//!
//! The crate models package versions with the Debian total version order,
//! version constraints and dependencies, and provides the pure parts of a
//! downgrade planner: candidate aggregation, dependency selection, a
//! breadth-first worklist engine, metadata parsers, and the session caches.
//! All I/O (package-manager queries, downloads, page scraping) is left to
//! the embedding program, which feeds plain values in and out.

pub mod aggregate;
pub mod cache;
pub mod engine;
pub mod model;
pub mod parse;
pub mod select;
pub mod text;
pub mod version;
