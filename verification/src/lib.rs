//! Content-based directory tidying: classify each regular file of a directory
//! by its leading bytes, then plan the moves that put every file into a
//! category-named subdirectory of the same root.
//!
//! The library is pure: it decides everything (how bytes classify, which
//! directories to create, which renames to attempt, how per-item failures are
//! contained) and leaves the filesystem calls to its caller.

pub mod category;
pub mod sniff;
pub mod folders;
pub mod paths;
pub mod plan;
pub mod model;
