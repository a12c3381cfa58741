//! Proof and trust core of a distributed code-review system.
//!
//! - `level`: trust levels, review levels, versions and version ranges.
//! - `proofs`: proof contents and which trust proofs are current.
//! - `trust`: the trust set of a root identity over the current trust proofs.
//! - `deps`: per-package verdicts for a resolved dependency set.
//! - `envelope`: the fenced, signed-document format.
//! - `source`, `commands`, `text`: registry source ids and the decisions behind
//!   the command-line operations.
//! - `sync`: which proof repositories to refresh for a trust set, and the best known
//!   repository URL of an identity.

pub mod level;
pub mod proofs;
pub mod trust;
pub mod deps;
pub mod text;
pub mod source;
pub mod commands;
pub mod envelope;
pub mod sync;
