//! Answers "is package P, at version V, affected by a known vulnerability,
//! and if so what is the minimum safe version?".
//!
//! The crate normalizes vendor vulnerability records into a domain model,
//! caches them in a package-indexed store, and resolves, for a set of
//! project dependencies, the set of recommended upgrades.

pub mod database;
pub mod dependencies;
pub mod finder;
pub mod nvd;
pub mod project;
pub mod text;
pub mod version;
pub mod vulnerabilities;
