//! The walk: which entries of a directory are searched, entered or left out.

use crate::argrep::config::{MatchResult, SearchConfig, SearchStats, Task};
use crate::argrep::rows;
use crate::ignore_files;
use crate::ignore_files::{Fault, Layer};
use crate::globs;
use crate::paths;
use crate::paths::DirEntry;
use crate::text;
use ignore::gitignore::Gitignore;
use std::sync::Arc;
use vstd::prelude::*;
use vstd::string::*;

verus! {

/// What is to be done about an entry.
pub enum Action {
    /// Nothing.
    Pass,
    /// Walk the directory.
    Descend(Task),
    /// Search the file.
    Search(String),
    /// List the file without opening it.
    List(String),
}

/// What comes of one entry.
pub struct Step {
    pub action: Action,
    /// The entry counts as a file that was come upon.
    pub discovered: bool,
}

impl SearchConfig {
    /// A name that may be looked at: hidden ones only under --hidden.
    pub open spec fn sees(self, name: Seq<char>) -> bool {
        self.hidden || !paths::is_hidden(name)
    }

    /// The ignore files say to leave a path out, and are obeyed.
    pub open spec fn ignores(self, layers: Seq<Layer>, path: Seq<char>, is_dir: bool) -> bool {
        self.respect_gitignore && ignore_files::layers_ignore(layers, path, is_dir)
    }

    /// A directory that is walked, as far as its name goes.
    pub open spec fn wants_dir(self, name: Seq<char>) -> bool {
        !self.ignore_dirs@.contains(name) && !globs::any_glob_matches(
            self.ignore_dir_patterns@,
            name,
        )
    }

    /// A file that is searched, as far as its name goes: no negative filter
    /// matches it, and every positive filter in effect does.
    pub open spec fn wants_file(self, name: Seq<char>) -> bool {
        &&& !globs::any_glob_matches(self.exclude_patterns@, name)
        &&& !globs::any_glob_matches(self.type_not_patterns@, name)
        &&& self.include_pattern matches Some(p) ==> globs::glob_matches(
            globs::glob_text(p),
            name,
            true,
        )
        &&& self.type_patterns@.len() == 0 || globs::any_glob_matches(self.type_patterns@, name)
    }

    /// --include asks for every name: there is none, or it is a lone star.
    pub open spec fn takes_every_name(self) -> bool {
        self.include_pattern matches Some(p) ==> globs::glob_text(p) == seq!['*']
    }

    /// The same without --include.
    pub open spec fn unfiltered(self) -> SearchConfig {
        SearchConfig { include_pattern: None, ..self }
    }

    /// An entry that is neither left out nor a symbolic link.
    pub open spec fn keeps(self, layers: Seq<Layer>, dir: Seq<char>, e: DirEntry) -> bool {
        &&& !e.is_symlink
        &&& self.sees(e.name@)
        &&& !self.ignores(layers, paths::joined(dir, e.name@), e.is_dir)
        &&& if e.is_dir {
            self.wants_dir(e.name@)
        } else {
            self.wants_file(e.name@)
        }
    }

    fn keeps_dir(&self, name: &str) -> (b: bool)
        ensures
            b == self.wants_dir(name@),
    {
        !self.ignore_dirs.contains(name) && !globs::any_matches(&self.ignore_dir_patterns, name)
    }

    fn keeps_file(&self, name: &str) -> (b: bool)
        ensures
            b == self.wants_file(name@),
            self.takes_every_name() ==> b == self.unfiltered().wants_file(name@),
    {
        if globs::any_matches(&self.exclude_patterns, name) || globs::any_matches(
            &self.type_not_patterns,
            name,
        ) {
            return false;
        }
        if let Some(p) = &self.include_pattern {
            if !globs::matches_name(p, name, true) {
                return false;
            }
        }
        self.type_patterns.len() == 0 || globs::any_matches(&self.type_patterns, name)
    }

    /// -q: a selected line anywhere has settled the outcome of the search, and
    /// nothing more needs to be read, listed or entered.
    pub fn is_settled(&self, matched_lines: usize) -> (b: bool)
        ensures
            b == (self.quiet && matched_lines > 0),
    {
        self.quiet && matched_lines > 0
    }
}

impl Step {
    /// The step is the one that the rules call for.
    pub open spec fn is_for(
        self,
        config: SearchConfig,
        layers: Seq<Layer>,
        dir: Seq<char>,
        e: DirEntry,
    ) -> bool {
        let path = paths::joined(dir, e.name@);
        let kept = config.keeps(layers, dir, e);
        &&& self.discovered == (!e.is_symlink && !e.is_dir)
        &&& match self.action {
            Action::Pass => !kept,
            Action::Descend(t) => kept && e.is_dir && t.path@ == path && ignore_files::layers(
                (*t.ignore_stack)@,
            ) == layers,
            Action::Search(p) => kept && !e.is_dir && !config.files_only && p@ == path,
            Action::List(p) => kept && !e.is_dir && config.files_only && p@ == path,
        }
    }

    /// A file that was filtered out.
    pub open spec fn is_skip(self) -> bool {
        self.discovered && self.action is Pass
    }

    /// A file that is searched or listed.
    pub open spec fn is_take(self) -> bool {
        self.action is Search || self.action is List
    }

    /// What the step adds to the counters of the search.
    pub fn counts(&self) -> (r: SearchStats)
        ensures
            r == (SearchStats {
                total_files: if self.is_take() {
                    1
                } else {
                    0
                },
                total_dirs: 0,
                matched_lines: 0,
                io_errors: 0,
                files_discovered: if self.discovered {
                    1
                } else {
                    0
                },
                files_skipped: if self.is_skip() {
                    1
                } else {
                    0
                },
                bytes_read: 0,
            }),
    {
        let mut r = SearchStats::new();
        if self.discovered {
            r.files_discovered = 1;
        }
        match self.action {
            Action::Pass => {
                if self.discovered {
                    r.files_skipped = 1;
                }
            },
            Action::Descend(_) => {},
            Action::Search(_) | Action::List(_) => {
                r.total_files = 1;
            },
        }
        r
    }
}

/// Decides about one entry of the directory `dir`, to whose inside `stack`
/// applies. A lone star for --include is as good as none.
pub fn plan_entry(
    config: &SearchConfig,
    stack: &Arc<Vec<Arc<Gitignore>>>,
    dir: &str,
    entry: &DirEntry,
) -> (r: Step)
    ensures
        r.is_for(*config, ignore_files::layers((**stack)@), dir@, *entry),
        config.takes_every_name() ==> (r.action is Pass) == !config.unfiltered().keeps(
            ignore_files::layers((**stack)@),
            dir@,
            *entry,
        ),
{
    if entry.is_symlink {
        return Step { action: Action::Pass, discovered: false };
    }
    let discovered: bool = !entry.is_dir;
    let name = entry.name.as_str();
    if !config.hidden && paths::hidden_name(name) {
        return Step { action: Action::Pass, discovered };
    }
    let path = paths::join(dir, name);
    if config.respect_gitignore && ignore_files::is_path_ignored(stack, path.as_str(), entry.is_dir) {
        return Step { action: Action::Pass, discovered };
    }
    let action: Action = if entry.is_dir {
        if config.keeps_dir(name) {
            Action::Descend(Task { path, ignore_stack: ignore_files::share(stack) })
        } else {
            Action::Pass
        }
    } else if !config.keeps_file(name) {
        Action::Pass
    } else if config.files_only {
        Action::List(path)
    } else {
        Action::Search(path)
    };
    Step { action, discovered }
}

/// What comes of walking a directory.
pub struct ScanOutcome {
    /// One step for each entry, in the order of the listing.
    pub steps: Vec<Step>,
    /// What is wrong with the directory's ignore files.
    pub faults: Vec<Fault>,
}

/// Walks a directory: decides about each of its entries. `ignore_files` holds
/// the lines of the directory's ignore files.
///
/// The steps are to be taken in order; under -q, those that remain once the
/// outcome of the search is settled are dropped.
pub fn scan_and_grep(
    task: &Task,
    config: &SearchConfig,
    entries: &Vec<DirEntry>,
    ignore_files: &Vec<Vec<String>>,
) -> (r: ScanOutcome)
    ensures
        r.steps@.len() == entries@.len(),
        forall|i: int|
            0 <= i < entries@.len() ==> (#[trigger] r.steps@[i]).is_for(
                *config,
                ignore_files::layers_inside(
                    ignore_files::layers((*task.ignore_stack)@),
                    config.respect_gitignore,
                    task.path@,
                    ignore_files.deep_view(),
                ),
                task.path@,
                entries@[i],
            ),
        config.takes_every_name() ==> forall|i: int|
            0 <= i < entries@.len() ==> ((#[trigger] r.steps@[i]).action is Pass)
                == !config.unfiltered().keeps(
                ignore_files::layers_inside(
                    ignore_files::layers((*task.ignore_stack)@),
                    config.respect_gitignore,
                    task.path@,
                    ignore_files.deep_view(),
                ),
                task.path@,
                entries@[i],
            ),
        r.faults.deep_view() == (if config.respect_gitignore {
            ignore_files::dir_faults(ignore_files.deep_view())
        } else {
            seq![]
        }),
{
    let (stack, faults) = ignore_files::enter_directory(
        &task.ignore_stack,
        config.respect_gitignore,
        task.path.as_str(),
        ignore_files,
    );
    let ghost inside = ignore_files::layers((*stack)@);
    let mut steps: Vec<Step> = Vec::new();
    let mut i: usize = 0;
    while i < entries.len()
        invariant
            0 <= i <= entries.len(),
            steps@.len() == i,
            inside == ignore_files::layers((*stack)@),
            forall|j: int|
                0 <= j < i ==> (#[trigger] steps@[j]).is_for(
                    *config,
                    inside,
                    task.path@,
                    entries@[j],
                ),
            config.takes_every_name() ==> forall|j: int|
                0 <= j < i ==> ((#[trigger] steps@[j]).action is Pass)
                    == !config.unfiltered().keeps(inside, task.path@, entries@[j]),
        decreases entries.len() - i,
    {
        steps.push(plan_entry(config, &stack, task.path.as_str(), &entries[i]));
        i += 1;
    }
    ScanOutcome { steps, faults }
}

/// The step for a file that was named as the root of the search. It is always
/// taken: no filter applies to it.
pub fn plan_root_file(config: &SearchConfig, path: &str) -> (r: Step)
    ensures
        r.discovered,
        match r.action {
            Action::Search(p) => !config.files_only && p@ == path@,
            Action::List(p) => config.files_only && p@ == path@,
            _ => false,
        },
{
    let action: Action = if config.files_only {
        Action::List(path.to_string())
    } else {
        Action::Search(path.to_string())
    };
    Step { action, discovered: true }
}

/// --files: what is reported for a file that is listed: its name, and nothing
/// under -q.
pub fn emit_file_listing(config: &SearchConfig, file_path: &str) -> (r: Vec<MatchResult>)
    ensures
        r.deep_view() == (if config.quiet {
            seq![]
        } else {
            seq![rows::name_row(file_path@)]
        }),
{
    if config.quiet {
        let none: Vec<MatchResult> = Vec::new();
        assert(none.deep_view() =~= seq![]);
        return none;
    }
    let one = vec![
        MatchResult {
            file_path: file_path.to_string(),
            line_num: 0,
            line_content: String::new(),
            count: None,
            is_context: false,
            is_separator: false,
        },
    ];
    assert(one.deep_view() =~= seq![rows::name_row(file_path@)]);
    one
}

/// How many of the steps come upon a file.
pub open spec fn discovered_in(steps: Seq<Step>) -> int
    decreases steps.len(),
{
    if steps.len() == 0 {
        0
    } else {
        discovered_in(steps.drop_last()) + if steps.last().discovered {
            1int
        } else {
            0int
        }
    }
}

/// How many of the steps search or list a file.
pub open spec fn taken_in(steps: Seq<Step>) -> int
    decreases steps.len(),
{
    if steps.len() == 0 {
        0
    } else {
        taken_in(steps.drop_last()) + if steps.last().is_take() {
            1int
        } else {
            0int
        }
    }
}

/// How many of the steps leave a file out.
pub open spec fn skipped_in(steps: Seq<Step>) -> int
    decreases steps.len(),
{
    if steps.len() == 0 {
        0
    } else {
        skipped_in(steps.drop_last()) + if steps.last().is_skip() {
            1int
        } else {
            0int
        }
    }
}

/// Every file that is come upon is either searched or skipped, and nothing
/// else counts as searched or skipped: the three counters always balance,
/// wherever the walk is cut short.
pub proof fn counters_balance(
    steps: Seq<Step>,
    config: SearchConfig,
    layers: Seq<Layer>,
    dir: Seq<char>,
    entries: Seq<DirEntry>,
)
    requires
        steps.len() <= entries.len(),
        forall|i: int|
            0 <= i < steps.len() ==> (#[trigger] steps[i]).is_for(config, layers, dir, entries[i]),
    ensures
        discovered_in(steps) == taken_in(steps) + skipped_in(steps),
    decreases steps.len(),
{
    if steps.len() > 0 {
        let fewer = steps.drop_last();
        assert forall|i: int| 0 <= i < fewer.len() implies (#[trigger] fewer[i]).is_for(
            config,
            layers,
            dir,
            entries[i],
        ) by {
            assert(fewer[i] == steps[i]);
        }
        counters_balance(fewer, config, layers, dir, entries);
        assert(steps[steps.len() - 1].is_for(config, layers, dir, entries[steps.len() - 1]));
    }
}

/// --exclude and --type-not win over --include and --type: a file that one of
/// their patterns matches is left out, whatever else matches it.
pub proof fn exclusion_wins(config: SearchConfig, layers: Seq<Layer>, dir: Seq<char>, e: DirEntry)
    requires
        !e.is_dir,
        globs::any_glob_matches(config.exclude_patterns@, e.name@) || globs::any_glob_matches(
            config.type_not_patterns@,
            e.name@,
        ),
    ensures
        !config.keeps(layers, dir, e),
{
}

/// Symbolic links that turn up in a walk are neither entered nor searched, nor
/// counted as files.
pub proof fn symlinks_are_passed_over(
    step: Step,
    config: SearchConfig,
    layers: Seq<Layer>,
    dir: Seq<char>,
    e: DirEntry,
)
    requires
        e.is_symlink,
        step.is_for(config, layers, dir, e),
    ensures
        step.action is Pass,
        !step.discovered,
{
}

/// --hidden and ignore files are separate layers: what an ignore file leaves
/// out stays out under --hidden, and a hidden name stays out without it even
/// where no ignore file is obeyed.
pub proof fn hidden_and_ignored_are_separate(
    config: SearchConfig,
    layers: Seq<Layer>,
    dir: Seq<char>,
    e: DirEntry,
)
    ensures
        config.ignores(layers, paths::joined(dir, e.name@), e.is_dir) ==> !config.keeps(
            layers,
            dir,
            e,
        ),
        !config.hidden && paths::is_hidden(e.name@) ==> !config.keeps(layers, dir, e),
{
}

/// --hidden and --no-ignore together, without any filter by name, leave nothing
/// out but symbolic links.
pub proof fn everything_can_be_searched(
    config: SearchConfig,
    layers: Seq<Layer>,
    dir: Seq<char>,
    e: DirEntry,
)
    requires
        config.hidden,
        !config.respect_gitignore,
        config.ignore_dirs@ == Set::<Seq<char>>::empty(),
        config.ignore_dir_patterns@.len() == 0,
        config.exclude_patterns@.len() == 0,
        config.type_patterns@.len() == 0,
        config.type_not_patterns@.len() == 0,
        config.include_pattern is None,
    ensures
        config.keeps(layers, dir, e) == !e.is_symlink,
{
}

/// A text ends with another.
pub open spec fn ends_with(s: Seq<char>, end: Seq<char>) -> bool {
    s.len() >= end.len() && s.skip(s.len() - end.len()) == end
}

/// A name of a gzip file: something before `.gz`, but not a tar archive.
pub open spec fn is_gzip_name(name: Seq<char>) -> bool {
    name.len() > 3 && ends_with(name, seq!['.', 'g', 'z']) && !ends_with(
        name,
        seq!['.', 't', 'a', 'r', '.', 'g', 'z'],
    )
}

/// Whether a path is that of a gzip file, the only format that
/// -z/--search-compressed decompresses. A compressed tar archive is several
/// files in one and does not count.
pub fn is_gzip_target(path: &str) -> (b: bool)
    ensures
        b == (paths::file_name(path@) matches Some(name) && is_gzip_name(name)),
{
    match paths::name_of(path) {
        None => false,
        Some(name) => {
            let chars = text::to_chars(name.as_str());
            let n: usize = chars.len();
            let ghost gz = seq!['.', 'g', 'z'];
            let ghost tar = seq!['.', 't', 'a', 'r', '.', 'g', 'z'];
            if n <= 3 || !(chars[n - 3] == '.' && chars[n - 2] == 'g' && chars[n - 1] == 'z') {
                proof {
                    if n > 3 && ends_with(name@, gz) {
                        let end = name@.skip(n - 3);
                        assert(end[0] == chars@[n - 3] && end[1] == chars@[n - 2] && end[2]
                            == chars@[n - 1]);
                    }
                }
                return false;
            }
            assert(name@.skip(n - 3) =~= gz);
            let is_tar: bool = n >= 7 && chars[n - 7] == '.' && chars[n - 6] == 't' && chars[n - 5]
                == 'a' && chars[n - 4] == 'r';
            proof {
                if is_tar {
                    assert(name@.skip(n - 7) =~= tar);
                } else if ends_with(name@, tar) {
                    let end = name@.skip(n - 7);
                    assert(end[0] == chars@[n - 7] && end[1] == chars@[n - 6] && end[2] == chars@[n
                        - 5] && end[3] == chars@[n - 4]);
                }
            }
            !is_tar
        },
    }
}

/// Whether a file is searched for what it holds once decompressed: under
/// -z/--search-compressed, the gzip files are, and no other file ever is.
pub fn decompresses(config: &SearchConfig, path: &str) -> (b: bool)
    ensures
        b == (config.search_compressed && (paths::file_name(path@) matches Some(name)
            && is_gzip_name(name))),
{
    config.search_compressed && is_gzip_target(path)
}

} // verus!
