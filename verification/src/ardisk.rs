//! `ardisk`: parallel disk usage.

pub mod cli;
pub mod report;
pub mod report_laws;
pub mod rollup;
pub mod rollup_laws;
pub mod scan;
pub mod scan_laws;
pub mod size_map;
pub mod whole_run;

pub use cli::{build_ignore_dirs, parse_threshold, Args, DEFAULT_IGNORES};
pub use report::format_size;
pub use rollup::aggregate_sizes;
pub use scan::{build_config, scan_directory, ScanConfig, Task};
pub use size_map::SizeMap;
