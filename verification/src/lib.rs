//! A verified workspace file engine: path normalization, an explicit model of
//! the visible filesystem with atomic mutation primitives, recursive directory
//! walking with ignore rules, ranked file search, and in-memory workspace
//! session state (recent workspaces and bookmarks).
//!
//! All operating-system I/O stays outside this crate: callers load a snapshot
//! of the directory tree they care about, run the verified operations on it,
//! and mirror the successful mutations back to the disk.

pub mod errors;
pub mod path;
pub mod context;
pub mod tree;
pub mod store;
pub mod walk;
pub mod search;
pub mod session;
pub mod export;
pub mod shell;
