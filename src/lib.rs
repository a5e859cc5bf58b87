//! Strips debug statements from source files, follows same-language imports,
//! and keeps a reversible backup of every file it rewrites.
//!
//! The library holds the decisions; reading and writing files is left to the
//! caller, which hands file contents and existence answers in as plain values.
use vstd::prelude::*;

pub mod text;
pub mod rules;
pub mod filter;
pub mod paths;
pub mod imports;
pub mod backup;
pub mod traversal;
pub mod stats;
pub mod discovery;
