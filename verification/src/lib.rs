//! Verified core of three command line tools that walk directory trees in
//! parallel: `ardisk` (disk usage), `arfind` (finding entries) and `argrep`
//! (searching text).

pub mod amounts;
pub mod ardisk;
pub mod arfind;
pub mod argrep;
pub mod ignore_files;
pub mod ignore_laws;
pub mod decimal;
pub mod globs;
pub mod text;
pub mod text_laws;
pub mod numbers;
pub mod paint;
pub mod path_laws;
pub mod paths;
pub mod pool;
pub mod runs;
