//! `arfind`: parallel search for files and directories.

pub mod cli;
pub mod find_laws;
pub mod scan;
pub mod whole_run;

pub use cli::{build_ignore_dirs, parse_size, parse_size_bytes, Args, DEFAULT_IGNORES};
pub use scan::{scan_directory, MatchResult, SearchConfig, SearchStats, SizeFilter, Task};
