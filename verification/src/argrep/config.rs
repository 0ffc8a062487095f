//! What a search is asked to do, and what it hands out.

use crate::argrep::matcher;
use crate::argrep::rows::{LineRules, Mode, Row};
use glob::Pattern;
use ignore::gitignore::Gitignore;
use regex::Regex;
use std::sync::Arc;
use vstd::hash_set::StringHashSet;
use vstd::prelude::*;

verus! {

/// A directory or file that is still to be searched.
pub struct Task {
    pub path: String,
    /// The ignore-file matchers from the root down to the directory's parent,
    /// outermost first.
    pub ignore_stack: Arc<Vec<Arc<Gitignore>>>,
}

/// Everything that stays the same during a search.
pub struct SearchConfig {
    /// The query as it was given.
    pub query: String,
    /// The matcher for every line.
    pub regex: Regex,
    pub ignore_case: bool,
    pub line_number: bool,
    /// Directories to skip, by name.
    pub ignore_dirs: StringHashSet,
    /// Directories to skip, by pattern. A directory is skipped if it is in
    /// either list.
    pub ignore_dir_patterns: Vec<Pattern>,
    pub debug: bool,
    /// -v: lines without a match are selected.
    pub invert: bool,
    /// -l: only the names of files with a selected line.
    pub files_with_matches: bool,
    /// -L: only the names of files without a selected line.
    pub files_without_match: bool,
    /// -c: only the number of selected lines of each file.
    pub count_per_file: bool,
    /// --include: only files that match.
    pub include_pattern: Option<Pattern>,
    /// --exclude: no file that matches one of these; wins over --include.
    pub exclude_patterns: Vec<Pattern>,
    /// --type: only files that match one of these, if there are any.
    pub type_patterns: Vec<Pattern>,
    /// --type-not: no file that matches one of these.
    pub type_not_patterns: Vec<Pattern>,
    /// -B: lines of context before a selected one.
    pub before_context: usize,
    /// -A: lines of context after a selected one.
    pub after_context: usize,
    /// Whether ignore files are obeyed.
    pub respect_gitignore: bool,
    /// --hidden: names that start with a dot are not skipped.
    pub hidden: bool,
    /// --files: files are listed, not read.
    pub files_only: bool,
    /// -z: gzip files are decompressed.
    pub search_compressed: bool,
    /// -q: nothing is printed, and one selected line ends the search.
    pub quiet: bool,
    /// -o: only the matches of a selected line.
    pub only_matching: bool,
    /// -m: at most this many selected lines for each file.
    pub max_count: Option<usize>,
}

impl SearchConfig {
    /// The mode that the flags ask for.
    pub open spec fn spec_mode(self) -> Mode {
        if self.quiet {
            Mode::Quiet
        } else if self.files_with_matches {
            Mode::ListMatching
        } else if self.files_without_match {
            Mode::ListMissing
        } else if self.count_per_file {
            Mode::Count
        } else if self.only_matching {
            Mode::Pieces
        } else {
            Mode::Lines
        }
    }

    /// The rules for the lines of a file.
    pub open spec fn spec_rules(self) -> LineRules {
        LineRules {
            mode: self.spec_mode(),
            invert: self.invert,
            before: self.before_context,
            after: self.after_context,
            max_count: self.max_count,
            count_at_end: self.count_per_file && !self.quiet,
            missing_at_end: self.files_without_match && !self.quiet,
        }
    }

    /// The matches of the search in a line.
    pub open spec fn hits(self, text: Seq<char>) -> Seq<(usize, usize)> {
        matcher::spans(self.regex, text)
    }

    /// The mode that the flags ask for.
    pub fn mode(&self) -> (m: Mode)
        ensures
            m == self.spec_mode(),
    {
        if self.quiet {
            Mode::Quiet
        } else if self.files_with_matches {
            Mode::ListMatching
        } else if self.files_without_match {
            Mode::ListMissing
        } else if self.count_per_file {
            Mode::Count
        } else if self.only_matching {
            Mode::Pieces
        } else {
            Mode::Lines
        }
    }

    /// The rules for the lines of a file.
    pub fn rules(&self) -> (r: LineRules)
        ensures
            r == self.spec_rules(),
    {
        LineRules {
            mode: self.mode(),
            invert: self.invert,
            before: self.before_context,
            after: self.after_context,
            max_count: self.max_count,
            count_at_end: self.count_per_file && !self.quiet,
            missing_at_end: self.files_without_match && !self.quiet,
        }
    }
}

/// Counters of a search.
#[derive(Debug, Clone, Copy, PartialEq, Eq, Structural)]
pub struct SearchStats {
    /// Files that were searched, or listed under --files.
    pub total_files: usize,
    /// Directories that were visited.
    pub total_dirs: usize,
    /// Selected lines.
    pub matched_lines: usize,
    /// Files and directories that could not be read.
    pub io_errors: usize,
    /// Files that were come upon, before any filter.
    pub files_discovered: usize,
    /// Files that a filter kept out.
    pub files_skipped: usize,
    /// Bytes read from files: what was read to tell a binary file, and every
    /// line.
    pub bytes_read: usize,
}

impl SearchStats {
    /// Counters that all stand at zero.
    pub fn new() -> (r: Self)
        ensures
            r == (SearchStats {
                total_files: 0,
                total_dirs: 0,
                matched_lines: 0,
                io_errors: 0,
                files_discovered: 0,
                files_skipped: 0,
                bytes_read: 0,
            }),
    {
        SearchStats {
            total_files: 0,
            total_dirs: 0,
            matched_lines: 0,
            io_errors: 0,
            files_discovered: 0,
            files_skipped: 0,
            bytes_read: 0,
        }
    }
}

impl Default for SearchStats {
    fn default() -> (r: Self)
        ensures
            r == (SearchStats {
                total_files: 0,
                total_dirs: 0,
                matched_lines: 0,
                io_errors: 0,
                files_discovered: 0,
                files_skipped: 0,
                bytes_read: 0,
            }),
    {
        SearchStats::new()
    }
}

/// One row of a report.
#[derive(Debug)]
pub struct MatchResult {
    pub file_path: String,
    /// The line's number, counted from one; zero where the row is for no line.
    pub line_num: usize,
    pub line_content: String,
    /// Under -c: the number of selected lines of the file.
    pub count: Option<usize>,
    /// The line is context, not selected itself.
    pub is_context: bool,
    /// The row parts two groups of lines that do not touch.
    pub is_separator: bool,
}

impl View for MatchResult {
    type V = Row;

    open spec fn view(&self) -> Row {
        Row {
            path: self.file_path@,
            num: self.line_num as int,
            text: self.line_content@,
            count: match self.count {
                Some(n) => Some(n as int),
                None => None,
            },
            context: self.is_context,
            separator: self.is_separator,
        }
    }
}

impl DeepView for MatchResult {
    type V = Row;

    open spec fn deep_view(&self) -> Row {
        self@
    }
}

} // verus!
