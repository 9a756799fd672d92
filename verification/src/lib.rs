//! A schema migration engine: it evolves a persistent relational store from
//! an unknown starting version to a known target version by applying an
//! ordered sequence of one-way change-scripts exactly once each, and it
//! tracks the applied versions so that repeated startups are safe no-ops.
//!
//! The embedding application supplies the descriptors, validates them into a
//! [`registry::MigrationRegistry`], mirrors its bookkeeping table in a
//! [`store::VersionStore`], and hands both to [`runner::run`] together with
//! an executor for the store's native statements.

pub mod descriptor;
pub mod registry;
pub mod runner;
pub mod store;
