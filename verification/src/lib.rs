//! Verified core of a container-definition build manager.
//!
//! A *definition* is a small text file (a shell script or a Containerfile)
//! carrying structured front-matter metadata. The library parses definitions,
//! derives their names and content hashes, resolves the dependency graph of a
//! requested build set, detects cycles, orders the set topologically, computes
//! combined tree hashes, decides which definitions need rebuilding, and lays
//! out the exact arguments and environment for each build dispatch. All I/O —
//! reading the definition directory, talking to the container tools — lives
//! outside this crate and hands plain values in and out.

pub mod cli;
pub mod config;
pub mod definition;
pub mod graph;
pub mod hashing;
pub mod plan;
pub mod podman;
pub mod store;
pub mod text;
