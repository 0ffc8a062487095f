//! `argrep`: parallel text search.

pub mod cli;
pub mod config;
pub mod content;
pub mod content_laws;
pub mod display;
pub mod file_search;
pub mod listing_laws;
pub mod matcher;
pub mod option_laws;
pub mod print_laws;
pub mod reading_laws;
pub mod row_laws;
pub mod rows;
pub mod sanitize;
pub mod scan;
pub mod types;
pub mod walk_laws;
pub mod whole_run;

pub use cli::{build_ignore_dirs, Args, DEFAULT_IGNORES};
pub use config::{MatchResult, SearchConfig, SearchStats, Task};
pub use content::{grep_file, grep_stdin};
pub use display::{highlight_matches, print_result, print_stdin_line};
pub use file_search::FileSearch;
pub use matcher::{build_matcher, MatchOptions};
pub use sanitize::sanitize_for_display;
pub use scan::{emit_file_listing, is_gzip_target, scan_and_grep};
pub use types::{known_type_names, type_globs, type_name_parser};
