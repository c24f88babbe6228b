//! Inspection helpers for a shell environment: splitting a `PATH` value into
//! its entries, flagging duplicate entries, indexing file contents by line,
//! searching lines for a keyword, and deriving backup file names.
//!
//! Every function here is a pure computation on plain values; reading the
//! environment or the filesystem is left to the caller, which hands the
//! snapshot in and carries the results out.

pub mod backup;
pub mod env_report;
pub mod lines;
pub mod path_entries;
pub mod search;
pub mod text;
