//! Aggregates versioned SQL schema migrations exported by library
//! dependencies into a consuming project's migrations directory.
//!
//! Versions are plain strings ordered lexically; a dependency's migration
//! directory is scanned newest-first, the scan stops at the first version
//! that is already present locally or is a baseline (its name starts with
//! `"0"`), and the remaining new versions are merged into a single
//! migration pair named after the newest version found.

pub mod build_plan;
pub mod importer;
pub mod version_order;
