//! Renders a directory as an indented tree or as a nested node structure,
//! under one filtering policy (ignore-aware listing, file glob, lock-file
//! exclusion, depth limit, directories-only mode).
//!
//! The filesystem is read elsewhere into a [`snapshot::Snapshot`]; everything
//! decided about it is computed and proved here.

pub mod snapshot;
pub mod glob;
pub mod config;
pub mod filter;
pub mod text;
pub mod tree;
pub mod laws;
