//! Runtime package executor core: version and constraint algebra, dependency
//! hydration, resolution against a local store and a remote inventory,
//! pantry index queries, environment synthesis, and the process-handoff guard.

pub mod args;
pub mod cellar;
pub mod config;
pub mod exec;
pub mod install;
pub mod env;
pub mod hydrate;
pub mod inventory;
pub mod pantry;
pub mod pantry_db;
pub mod range;
pub mod resolve;
pub mod semver;
pub mod sync;
pub mod types;
