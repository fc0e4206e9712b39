//! In-memory filesystem core for a cooperatively scheduled kernel:
//! a hierarchical namespace of files and directories, a global open-file
//! table with per-file read/write exclusion, per-task descriptor tables,
//! and a block-linked file content engine.

pub mod cli;
pub mod dir;
pub mod file;
pub mod fs;
pub mod laws;
pub mod lock;
pub mod path;
pub mod table;
