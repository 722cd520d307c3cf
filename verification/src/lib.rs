//! Batch-rename planning: mapping construction, conflict detection,
//! rename-order solving, and a persisted operation log.

pub mod config;
pub mod dumpfile;
pub mod error;
pub mod fileutils;
pub mod path;
pub mod renamer;
pub mod solver;
pub mod strutil;
