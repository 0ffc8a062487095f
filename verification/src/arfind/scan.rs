//! The walk: which entries of a directory match, and which are entered.

use crate::globs;
use crate::ignore_files;
use crate::ignore_files::{Fault, Layer};
use crate::paint;
use crate::paint::Style;
use crate::paths;
use crate::paths::DirEntry;
use glob::Pattern;
use ignore::gitignore::Gitignore;
use std::sync::Arc;
use vstd::hash_set::StringHashSet;
use vstd::prelude::*;
use vstd::string::*;

verus! {

/// A directory that is still to be walked.
pub struct Task {
    pub path: String,
    /// How far below the root the directory lies.
    pub depth: usize,
    /// The ignore-file matchers from the root down to the directory's parent,
    /// outermost first.
    pub ignore_stack: Arc<Vec<Arc<Gitignore>>>,
}

/// Bounds on the size of a file, in bytes. A file has to lie strictly within
/// them.
#[derive(Debug, Clone, Copy, PartialEq, Eq, Structural)]
pub struct SizeFilter {
    /// +N: larger than N.
    pub min: Option<u64>,
    /// -N: smaller than N.
    pub max: Option<u64>,
}

/// Everything that stays the same during a search.
pub struct SearchConfig {
    /// What the name of an entry has to match.
    pub pattern: Pattern,
    /// Directories that are not entered, by name.
    pub ignore_dirs: StringHashSet,
    /// How far below the root entries are looked at.
    pub max_depth: Option<usize>,
    /// Only files (`f`), directories (`d`) or symbolic links (`l`).
    pub file_type: Option<String>,
    /// Names that start with a dot are not skipped.
    pub hidden: bool,
    pub debug: bool,
    pub size_filter: Option<SizeFilter>,
    /// Only empty files and empty directories.
    pub empty_only: bool,
    /// Letter case in names is disregarded.
    pub case_insensitive: bool,
    /// Whether ignore files are obeyed.
    pub respect_gitignore: bool,
}

/// Counters of a search.
#[derive(Debug, Clone, Copy, PartialEq, Eq, Structural)]
pub struct SearchStats {
    pub total_files: usize,
    pub total_dirs: usize,
    pub matched_count: usize,
}

impl SearchStats {
    /// Counters that all stand at zero.
    pub fn new() -> (r: Self)
        ensures
            r == (SearchStats { total_files: 0, total_dirs: 0, matched_count: 0 }),
    {
        SearchStats { total_files: 0, total_dirs: 0, matched_count: 0 }
    }
}

impl Default for SearchStats {
    fn default() -> (r: Self)
        ensures
            r == (SearchStats { total_files: 0, total_dirs: 0, matched_count: 0 }),
    {
        SearchStats::new()
    }
}

/// A match.
#[derive(Debug)]
pub struct MatchResult {
    pub path: String,
    pub is_dir: bool,
}

/// What may have to be found out about an entry before it is known to match.
#[derive(Debug, Clone, Copy)]
pub struct Facts {
    /// The length of a file, if its metadata could be had.
    pub len: Option<u64>,
    /// A directory could be listed and is empty.
    pub childless: bool,
}

impl SizeFilter {
    /// A length within the bounds.
    pub open spec fn admits(self, len: u64) -> bool {
        &&& self.min matches Some(min) ==> len > min
        &&& self.max matches Some(max) ==> len < max
    }

    fn accepts(&self, len: u64) -> (b: bool)
        ensures
            b == self.admits(len),
    {
        let above: bool = match self.min {
            Some(min) => len > min,
            None => true,
        };
        let below: bool = match self.max {
            Some(max) => len < max,
            None => true,
        };
        above && below
    }
}

impl SearchConfig {
    /// A name that may be looked at: hidden ones only if asked for.
    pub open spec fn sees(self, name: Seq<char>) -> bool {
        self.hidden || !paths::is_hidden(name)
    }

    /// An entry of the walk that is looked at at all.
    pub open spec fn looks_at(self, layers: Seq<Layer>, dir: Seq<char>, e: DirEntry) -> bool {
        &&& self.sees(e.name@)
        &&& !(self.respect_gitignore && ignore_files::layers_ignore(
            layers,
            paths::joined(dir, e.name@),
            e.is_dir,
        ))
    }

    /// The entry is of the type asked for.
    pub open spec fn wants_type(self, is_dir: bool, is_symlink: bool) -> bool {
        match self.file_type {
            Some(t) => {
                ||| t@ == "f"@ && !is_dir && !is_symlink
                ||| t@ == "d"@ && is_dir
                ||| t@ == "l"@ && is_symlink
            },
            None => true,
        }
    }

    /// The entry matches as far as its name and type go.
    pub open spec fn is_candidate(self, e: DirEntry) -> bool {
        &&& globs::glob_matches(globs::glob_text(self.pattern), e.name@, !self.case_insensitive)
        &&& self.wants_type(e.is_dir, e.is_symlink)
    }

    /// The entry is empty: a directory without entries, a file without bytes.
    pub open spec fn is_empty(self, e: DirEntry, facts: Facts) -> bool {
        if e.is_dir {
            facts.childless
        } else {
            facts.len == Some(0u64)
        }
    }

    /// The size of the entry is within bounds. Only files have a size; one
    /// whose metadata cannot be had counts as empty.
    pub open spec fn fits_size(self, e: DirEntry, facts: Facts) -> bool {
        match self.size_filter {
            Some(filter) if !e.is_dir && !e.is_symlink => filter.admits(
                match facts.len {
                    Some(n) => n,
                    None => 0,
                },
            ),
            _ => true,
        }
    }

    /// The entry is empty, if that is asked for, and of the right size.
    pub open spec fn passes(self, e: DirEntry, facts: Facts) -> bool {
        &&& self.empty_only ==> self.is_empty(e, facts)
        &&& self.fits_size(e, facts)
    }

    /// An entry of a directory that matches.
    pub open spec fn finds(
        self,
        layers: Seq<Layer>,
        dir: Seq<char>,
        e: DirEntry,
        facts: Facts,
    ) -> bool {
        self.looks_at(layers, dir, e) && self.is_candidate(e) && self.passes(e, facts)
    }

    /// A directory at this depth is walked.
    pub open spec fn walks_depth(self, depth: int) -> bool {
        self.max_depth matches Some(max) ==> depth < max
    }

    /// The entry is a directory that is entered from one at `depth`.
    pub open spec fn enters(
        self,
        layers: Seq<Layer>,
        dir: Seq<char>,
        depth: int,
        e: DirEntry,
    ) -> bool {
        &&& e.is_dir
        &&& !e.is_symlink
        &&& self.looks_at(layers, dir, e)
        &&& !self.ignore_dirs@.contains(e.name@)
        &&& self.walks_depth(depth + 1)
    }

    /// The length of the entry matters.
    pub open spec fn needs_len(self, e: DirEntry) -> bool {
        &&& self.is_candidate(e)
        &&& !e.is_dir
        &&& self.empty_only || (self.size_filter is Some && !e.is_symlink)
    }

    /// Whether the directory has entries matters.
    pub open spec fn needs_children(self, e: DirEntry) -> bool {
        self.is_candidate(e) && e.is_dir && self.empty_only
    }

    fn type_matches(&self, is_dir: bool, is_symlink: bool) -> (b: bool)
        ensures
            b == self.wants_type(is_dir, is_symlink),
    {
        match &self.file_type {
            Some(t) => (*t == "f".to_string() && !is_dir && !is_symlink) || (*t == "d".to_string()
                && is_dir) || (*t == "l".to_string() && is_symlink),
            None => true,
        }
    }

    /// Whether the root of the search, or a directory at this depth, is walked.
    pub fn may_walk(&self, depth: usize) -> (b: bool)
        ensures
            b == self.walks_depth(depth as int),
            self.max_depth is None ==> b,
            self.max_depth matches Some(max) ==> b == (depth < max),
    {
        match self.max_depth {
            Some(max) => depth < max,
            None => true,
        }
    }
}

/// What is known of an entry from its name and type alone.
pub struct Consideration {
    /// The entry is looked at.
    pub seen: bool,
    /// It matches as far as its name and type go.
    pub candidate: bool,
    /// Its length has to be found out.
    pub needs_len: bool,
    /// Whether it has entries has to be found out.
    pub needs_children: bool,
    /// The directory is entered.
    pub subtask: Option<Task>,
}

impl Consideration {
    /// This is what the rules make of an entry of the directory `dir`.
    pub open spec fn is_for(
        self,
        config: SearchConfig,
        layers: Seq<Layer>,
        dir: Seq<char>,
        depth: int,
        e: DirEntry,
    ) -> bool {
        &&& self.seen == config.looks_at(layers, dir, e)
        &&& self.candidate == (self.seen && config.is_candidate(e))
        &&& self.needs_len == (self.seen && config.needs_len(e))
        &&& self.needs_children == (self.seen && config.needs_children(e))
        &&& self.subtask is Some <==> config.enters(layers, dir, depth, e)
        &&& self.subtask matches Some(t) ==> {
            &&& t.path@ == paths::joined(dir, e.name@)
            &&& t.depth == depth + 1
            &&& ignore_files::layers((*t.ignore_stack)@) == layers
        }
    }
}

fn candidate(config: &SearchConfig, entry: &DirEntry) -> (b: bool)
    ensures
        b == config.is_candidate(*entry),
        globs::glob_text(config.pattern) == seq!['*'] && config.file_type is None ==> b,
{
    globs::matches_name(&config.pattern, entry.name.as_str(), !config.case_insensitive)
        && config.type_matches(entry.is_dir, entry.is_symlink)
}

/// Looks at one entry of a directory at `depth`, to whose inside `stack`
/// applies. With a lone star for a pattern and no type asked for, every entry
/// that is looked at is a candidate.
pub fn consider_entry(
    config: &SearchConfig,
    stack: &Arc<Vec<Arc<Gitignore>>>,
    dir: &str,
    depth: usize,
    entry: &DirEntry,
) -> (r: Consideration)
    requires
        depth < usize::MAX,
    ensures
        r.is_for(
            *config,
            ignore_files::layers((**stack)@),
            dir@,
            depth as int,
            *entry,
        ),
        globs::glob_text(config.pattern) == seq!['*'] && config.file_type is None && r.seen
            ==> r.candidate,
        r.candidate ==> r.seen,
        r.seen <==> (config.hidden || entry.name@.len() == 0 || entry.name@[0] != '.') && !(
        config.respect_gitignore && ignore_files::layers_ignore(
            ignore_files::layers((**stack)@),
            paths::joined(dir@, entry.name@),
            entry.is_dir,
        )),
        forall|one: Facts, other: Facts|
            (r.needs_len ==> one.len == other.len) && (r.needs_children ==> one.childless
                == other.childless) && r.candidate ==> #[trigger] config.passes(*entry, one)
                == #[trigger] config.passes(*entry, other),
{
    let nothing = Consideration {
        seen: false,
        candidate: false,
        needs_len: false,
        needs_children: false,
        subtask: None,
    };
    let name = entry.name.as_str();
    if !config.hidden && paths::hidden_name(name) {
        return nothing;
    }
    let path = paths::join(dir, name);
    if config.respect_gitignore && ignore_files::is_path_ignored(
        stack,
        path.as_str(),
        entry.is_dir,
    ) {
        return nothing;
    }
    let candidate: bool = candidate(config, entry);
    let enter: bool = entry.is_dir && !entry.is_symlink && !config.ignore_dirs.contains(name)
        && config.may_walk(depth + 1);
    Consideration {
        seen: true,
        candidate,
        needs_len: candidate && !entry.is_dir && (config.empty_only || (
        config.size_filter.is_some() && !entry.is_symlink)),
        needs_children: candidate && entry.is_dir && config.empty_only,
        subtask: if enter {
            Some(Task { path, depth: depth + 1, ignore_stack: ignore_files::share(stack) })
        } else {
            None
        },
    }
}

/// Settles whether an entry matches, once what is needed is found out.
pub fn settle_entry(
    config: &SearchConfig,
    entry: &DirEntry,
    considered: &Consideration,
    facts: &Facts,
) -> (b: bool)
    ensures
        b == (considered.candidate && config.passes(*entry, *facts)),
        b ==> considered.candidate,
        b && config.empty_only ==> if entry.is_dir {
            facts.childless
        } else {
            facts.len == Some(0u64)
        },
        b && !entry.is_dir && !entry.is_symlink ==> {
            let len: u64 = match facts.len {
                Some(n) => n,
                None => 0,
            };
            config.size_filter matches Some(f) ==> (f.min is Some ==> len > f.min->0) && (
            f.max is Some ==> len < f.max->0)
        },
        considered.candidate && !config.empty_only && config.size_filter is None ==> b,
{
    if !considered.candidate {
        return false;
    }
    if config.empty_only {
        let empty: bool = if entry.is_dir {
            facts.childless
        } else {
            match facts.len {
                Some(n) => n == 0,
                None => false,
            }
        };
        if !empty {
            return false;
        }
    }
    if entry.is_dir || entry.is_symlink {
        return true;
    }
    match &config.size_filter {
        Some(filter) => filter.accepts(
            match facts.len {
                Some(n) => n,
                None => 0,
            },
        ),
        None => true,
    }
}

/// What comes of walking a directory.
pub struct FindOutcome {
    pub matches: Vec<MatchResult>,
    /// The directories to enter.
    pub subtasks: Vec<Task>,
    /// How many entries other than directories were looked at.
    pub total_files: usize,
    /// What is wrong with the directory's ignore files.
    pub faults: Vec<Fault>,
}

/// A match as it is handed out.
pub ghost struct Found {
    pub path: Seq<char>,
    pub is_dir: bool,
}

impl View for MatchResult {
    type V = Found;

    open spec fn view(&self) -> Found {
        Found { path: self.path@, is_dir: self.is_dir }
    }
}

impl DeepView for MatchResult {
    type V = Found;

    open spec fn deep_view(&self) -> Found {
        self@
    }
}

impl SearchConfig {
    /// The matches among the entries of a directory, in the order of the
    /// listing.
    pub open spec fn found(
        self,
        layers: Seq<Layer>,
        dir: Seq<char>,
        entries: Seq<DirEntry>,
        facts: Seq<Facts>,
    ) -> Seq<Found>
        decreases entries.len(),
    {
        if entries.len() == 0 {
            seq![]
        } else {
            let n = entries.len() - 1;
            let before = self.found(layers, dir, entries.drop_last(), facts);
            if self.finds(layers, dir, entries[n], facts[n]) {
                before.push(
                    Found { path: paths::joined(dir, entries[n].name@), is_dir: entries[n].is_dir },
                )
            } else {
                before
            }
        }
    }

    /// The paths of the directories that are entered from one at `depth`, in
    /// the order of the listing.
    pub open spec fn entered(
        self,
        layers: Seq<Layer>,
        dir: Seq<char>,
        depth: int,
        entries: Seq<DirEntry>,
    ) -> Seq<Seq<char>>
        decreases entries.len(),
    {
        if entries.len() == 0 {
            seq![]
        } else {
            let before = self.entered(layers, dir, depth, entries.drop_last());
            if self.enters(layers, dir, depth, entries.last()) {
                before.push(paths::joined(dir, entries.last().name@))
            } else {
                before
            }
        }
    }

    /// How many entries other than directories are looked at.
    pub open spec fn files_seen(
        self,
        layers: Seq<Layer>,
        dir: Seq<char>,
        entries: Seq<DirEntry>,
    ) -> int
        decreases entries.len(),
    {
        if entries.len() == 0 {
            0
        } else {
            self.files_seen(layers, dir, entries.drop_last()) + if self.looks_at(
                layers,
                dir,
                entries.last(),
            ) && !entries.last().is_dir {
                1int
            } else {
                0int
            }
        }
    }
}

/// The tasks are those for the given paths at `depth`, under the given layers.
pub open spec fn tasks_for(
    tasks: Seq<Task>,
    layers: Seq<Layer>,
    depth: int,
    paths: Seq<Seq<char>>,
) -> bool {
    &&& tasks.len() == paths.len()
    &&& forall|i: int|
        0 <= i < tasks.len() ==> {
            &&& (#[trigger] tasks[i]).path@ == paths[i]
            &&& tasks[i].depth == depth
            &&& ignore_files::layers((*tasks[i].ignore_stack)@) == layers
        }
}

/// Walks a directory whose listing is at hand, with what there is to know of
/// each entry in `facts`. `ignore_lines` holds the lines of the directory's
/// ignore files. Of the facts, only those that a consideration asks for
/// matter.
pub fn scan_directory(
    task: &Task,
    config: &SearchConfig,
    entries: &Vec<DirEntry>,
    facts: &Vec<Facts>,
    ignore_lines: &Vec<Vec<String>>,
) -> (r: FindOutcome)
    requires
        facts@.len() == entries@.len(),
        task.depth < usize::MAX,
    ensures
        ({
            let layers = ignore_files::layers_inside(
                ignore_files::layers((*task.ignore_stack)@),
                config.respect_gitignore,
                task.path@,
                ignore_lines.deep_view(),
            );
            &&& r.matches.deep_view() == config.found(layers, task.path@, entries@, facts@)
            &&& tasks_for(
                r.subtasks@,
                layers,
                task.depth + 1,
                config.entered(layers, task.path@, task.depth as int, entries@),
            )
            &&& r.total_files == config.files_seen(layers, task.path@, entries@)
        }),
        r.faults.deep_view() == (if config.respect_gitignore {
            ignore_files::dir_faults(ignore_lines.deep_view())
        } else {
            seq![]
        }),
{
    let (stack, faults) = ignore_files::enter_directory(
        &task.ignore_stack,
        config.respect_gitignore,
        task.path.as_str(),
        ignore_lines,
    );
    let ghost layers = ignore_files::layers((*stack)@);
    let ghost dir = task.path@;
    let mut matches: Vec<MatchResult> = Vec::new();
    let mut subtasks: Vec<Task> = Vec::new();
    let mut total_files: usize = 0;
    let mut i: usize = 0;
    assert(matches.deep_view() =~= seq![]);
    while i < entries.len()
        invariant
            0 <= i <= entries.len(),
            facts@.len() == entries@.len(),
            task.depth < usize::MAX,
            dir == task.path@,
            layers == ignore_files::layers((*stack)@),
            matches.deep_view() == config.found(layers, dir, entries@.take(i as int), facts@),
            tasks_for(
                subtasks@,
                layers,
                task.depth + 1,
                config.entered(layers, dir, task.depth as int, entries@.take(i as int)),
            ),
            total_files == config.files_seen(layers, dir, entries@.take(i as int)),
            total_files <= i,
        decreases entries.len() - i,
    {
        let entry = &entries[i];
        proof {
            let next = entries@.take(i + 1);
            assert(next.drop_last() =~= entries@.take(i as int));
            assert(next.last() == *entry);
            assert(next[i as int] == *entry);
        }
        let considered = consider_entry(config, &stack, task.path.as_str(), task.depth, entry);
        if considered.seen && !entry.is_dir {
            total_files += 1;
        }
        if settle_entry(config, entry, &considered, &facts[i]) {
            let ghost before = matches.deep_view();
            let m = MatchResult {
                path: paths::join(task.path.as_str(), entry.name.as_str()),
                is_dir: entry.is_dir,
            };
            let ghost made = m@;
            matches.push(m);
            assert(matches.deep_view() =~= before.push(made));
        }
        if let Some(t) = considered.subtask {
            subtasks.push(t);
        }
        i += 1;
    }
    assert(entries@.take(entries.len() as int) =~= entries@);
    FindOutcome { matches, subtasks, total_files, faults }
}

/// The name by which the root of a search goes: that at the end of its path,
/// or the whole path where it has none.
pub open spec fn root_name(root: Seq<char>) -> Seq<char> {
    match paths::file_name(root) {
        Some(name) => name,
        None => root,
    }
}

/// The root of a search as an entry.
pub fn root_entry(root: &str, is_dir: bool) -> (e: DirEntry)
    ensures
        e.name@ == root_name(root@),
        paths::file_name(root@) matches Some(name) ==> e.name@ == name,
        paths::file_name(root@) is None ==> e.name@ == root@,
        e.is_dir == is_dir,
        !e.is_symlink,
{
    let name = match paths::name_of(root) {
        Some(name) => name,
        None => root.to_string(),
    };
    DirEntry { name, is_dir, is_symlink: false }
}

/// Looks at the root of a search. It is a candidate like any other entry, but
/// neither hidden nor ignored, and it is walked unless the depth is limited to
/// itself.
pub fn consider_root(config: &SearchConfig, root: &str, entry: &DirEntry) -> (r: Consideration)
    ensures
        r.seen,
        r.candidate == config.is_candidate(*entry),
        r.needs_len == config.needs_len(*entry),
        r.needs_children == config.needs_children(*entry),
        r.subtask is Some <==> config.walks_depth(0),
        r.subtask matches Some(t) ==> t.path@ == root@ && t.depth == 0 && ignore_files::layers(
            (*t.ignore_stack)@,
        ) == Seq::<Layer>::empty(),
        r.subtask is None <==> config.max_depth == Some(0usize),
        forall|one: Facts, other: Facts|
            (r.needs_len ==> one.len == other.len) && (r.needs_children ==> one.childless
                == other.childless) && r.candidate ==> #[trigger] config.passes(*entry, one)
                == #[trigger] config.passes(*entry, other),
{
    let candidate: bool = candidate(config, entry);
    let none: Vec<Arc<Gitignore>> = Vec::new();
    assert(ignore_files::layers(none@) =~= Seq::<Layer>::empty());
    Consideration {
        seen: true,
        candidate,
        needs_len: candidate && !entry.is_dir && (config.empty_only || (
        config.size_filter.is_some() && !entry.is_symlink)),
        needs_children: candidate && entry.is_dir && config.empty_only,
        subtask: if config.may_walk(0) {
            Some(Task { path: root.to_string(), depth: 0, ignore_stack: Arc::new(none) })
        } else {
            None
        },
    }
}

/// Prints a match: its path, in bold blue for a directory.
pub fn print_match(item: &MatchResult) -> (r: String)
    ensures
        item.is_dir ==> paint::is_painted(r@, item.path@, Style::BlueBold),
        !item.is_dir ==> r@ == item.path@,
{
    if item.is_dir {
        paint::paint(item.path.as_str(), Style::BlueBold)
    } else {
        item.path.clone()
    }
}

/// What is not asked for makes no difference: facts that agree wherever they
/// are needed lead to the same verdict. So metadata is read, and directories
/// are listed, only where a consideration says so.
pub proof fn unneeded_facts_make_no_difference(
    config: SearchConfig,
    layers: Seq<Layer>,
    dir: Seq<char>,
    e: DirEntry,
    one: Facts,
    other: Facts,
)
    requires
        config.needs_len(e) ==> one.len == other.len,
        config.needs_children(e) ==> one.childless == other.childless,
    ensures
        config.finds(layers, dir, e, one) == config.finds(layers, dir, e, other),
{
}

/// --size is for files alone: directories and symbolic links pass it whatever
/// their length.
pub proof fn size_never_excludes_directories(
    config: SearchConfig,
    e: DirEntry,
    facts: Facts,
)
    requires
        e.is_dir || e.is_symlink,
        !config.empty_only,
    ensures
        config.passes(e, facts),
{
}

/// Nothing below the depth limit is ever entered: a task that comes from a
/// walked directory lies less deep than the limit.
pub proof fn depth_limit_holds(
    config: SearchConfig,
    layers: Seq<Layer>,
    dir: Seq<char>,
    depth: int,
    e: DirEntry,
    max: usize,
)
    requires
        config.max_depth == Some(max),
        config.enters(layers, dir, depth, e),
    ensures
        depth + 1 < max,
{
}

} // verus!
