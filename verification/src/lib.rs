//! Planning the cleanup of a directory tree.
//!
//! The crate turns shell-style glob patterns into anchored regular
//! expressions, classifies the entries of a tree against a set of such
//! patterns, resolves the classification into a consistent plan (empty
//! directories cascade, deletions reach every descendant) and orders the plan
//! for execution.

pub mod cascade;
pub mod classify;
pub mod data;
pub mod digest;
pub mod executor;
pub mod fnmatch_regex;
pub mod order;
pub mod path;
pub mod pconfig;
pub mod pmatcher;
pub mod regex;
pub mod text;
pub mod util;
